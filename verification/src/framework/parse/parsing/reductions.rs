//! Reductions that were made, so that none is made twice.

use vstd::prelude::*;

use crate::framework::lex::lexed::TokenOccurrenceId;
use crate::framework::parse::data::product::{copy_ids, ProductId};
use crate::framework::parse::parsing::columns::has_id;
use crate::store::{BucketMap, Hashed, RadixMap};
use crate::utils::{FNV_OFFSET, FNV_PRIME};

verus! {

/// What a reduction reduces.
pub struct ReductionKey {
    pub production: u32,
    pub children: Vec<ProductId>,
    /// The token behind it, where it reduces nothing: an empty reduction counts
    /// only where it was made.
    pub boundary: Option<TokenOccurrenceId>,
}

/// What a key says.
#[verifier::ext_equal]
pub ghost struct KeyView {
    pub production: u32,
    pub children: Seq<ProductId>,
    pub boundary: Option<TokenOccurrenceId>,
}

impl View for ReductionKey {
    type V = KeyView;

    open spec fn view(&self) -> KeyView {
        KeyView { production: self.production, children: self.children@, boundary: self.boundary }
    }
}

/// The key of a reduction.
pub open spec fn key_of(production: u32, children: Seq<ProductId>, boundary: TokenOccurrenceId) -> KeyView {
    KeyView {
        production,
        children,
        boundary: if children.len() == 0 {
            Some(boundary)
        } else {
            None
        },
    }
}

/// Mixes ids into a hash.
pub open spec fn mixed_ids(hash: u64, ids: Seq<ProductId>) -> u64
    decreases ids.len(),
{
    if ids.len() == 0 {
        hash
    } else {
        (mixed_ids(hash, ids.drop_last()) ^ (ids.last() as u64)).wrapping_mul(FNV_PRIME)
    }
}

impl Hashed for ReductionKey {
    type Image = KeyView;

    open spec fn image(&self) -> KeyView {
        self@
    }

    open spec fn bucket_of(image: KeyView) -> u64 {
        mixed_ids(
            (FNV_OFFSET ^ (image.production as u64)).wrapping_mul(FNV_PRIME),
            image.children,
        )
    }

    fn bucket(&self) -> (r: u64) {
        let start: u64 = (FNV_OFFSET ^ (self.production as u64)).wrapping_mul(FNV_PRIME);
        let mut hash: u64 = start;
        let mut at: usize = 0;
        while at < self.children.len()
            invariant
                at <= self.children@.len(),
                hash == mixed_ids(start, self.children@.take(at as int)),
            decreases self.children@.len() - at,
        {
            proof {
                let next = self.children@.take(at as int + 1);
                assert(next.drop_last() =~= self.children@.take(at as int));
            }
            hash = (hash ^ (self.children[at] as u64)).wrapping_mul(FNV_PRIME);
            at += 1;
        }
        assert(self.children@.take(at as int) =~= self.children@);
        hash
    }

    fn same(&self, other: &Self) -> (r: bool) {
        if self.production != other.production || self.boundary != other.boundary
            || self.children.len() != other.children.len() {
            return false;
        }
        let mut at: usize = 0;
        while at < self.children.len()
            invariant
                at <= self.children@.len(),
                self.children@.len() == other.children@.len(),
                forall|i: int| 0 <= i < at ==> #[trigger] self.children@[i] == other.children@[i],
            decreases self.children@.len() - at,
        {
            if self.children[at] != other.children[at] {
                assert(self.children@[at as int] != other.children@[at as int]);
                return false;
            }
            at += 1;
        }
        assert(self@ =~= other@);
        true
    }
}

impl ReductionKey {
    /// The key of a reduction.
    pub fn new(production: u32, children: &Vec<ProductId>, boundary: TokenOccurrenceId) -> (r: Self)
        ensures
            r@ == key_of(production, children@, boundary),
    {
        ReductionKey {
            production,
            children: copy_ids(children),
            boundary: if children.len() == 0 {
                Some(boundary)
            } else {
                None
            },
        }
    }

    /// A copy of the key.
    pub fn copied(&self) -> (r: Self)
        ensures
            r@ == self@,
    {
        ReductionKey {
            production: self.production,
            children: copy_ids(&self.children),
            boundary: self.boundary,
        }
    }
}

/// The products of reductions, both ways.
pub struct ReductionCache {
    products: BucketMap<ReductionKey, ProductId>,
    origins: RadixMap<ReductionKey>,
}

/// What a cache holds.
#[verifier::ext_equal]
pub ghost struct CacheView {
    pub products: Map<KeyView, ProductId>,
    pub origins: Map<u64, KeyView>,
}

/// What keys say.
pub open spec fn origin_views(map: Map<u64, ReductionKey>) -> Map<u64, KeyView> {
    Map::new(|product: u64| map.dom().contains(product), |product: u64| map[product]@)
}

/// A cache with one reduction more. Where a product is among what it reduces,
/// nothing is kept of where it came from.
pub open spec fn with_reduction(v: CacheView, key: KeyView, product: ProductId) -> CacheView {
    CacheView {
        products: v.products.insert(key, product),
        origins: if key.children.contains(product) {
            v.origins
        } else {
            v.origins.insert(product as u64, key)
        },
    }
}

impl ReductionCache {
    pub closed spec fn view(self) -> CacheView {
        CacheView { products: self.products@, origins: origin_views(self.origins@) }
    }

    pub closed spec fn wf(self) -> bool {
        self.products.wf() && self.origins.wf()
    }

    /// A cache without reductions.
    pub fn new() -> (r: Self)
        ensures
            r.wf(),
            r.view() == (CacheView { products: Map::empty(), origins: Map::empty() }),
    {
        let r = ReductionCache { products: BucketMap::new(), origins: RadixMap::new() };
        assert(r.view() =~= (CacheView { products: Map::empty(), origins: Map::empty() }));
        r
    }

    /// The product of a reduction.
    pub fn find(&self, key: &ReductionKey) -> (r: Option<ProductId>)
        requires
            self.wf(),
        ensures
            r == (if self.view().products.dom().contains(key@) {
                Some(self.view().products[key@])
            } else {
                None
            }),
    {
        match self.products.get(key) {
            Some(product) => Some(*product),
            None => None,
        }
    }

    /// What a product was reduced from.
    pub fn origin(&self, product: ProductId) -> (r: Option<&ReductionKey>)
        requires
            self.wf(),
        ensures
            match r {
                Some(key) => self.view().origins.dom().contains(product as u64) && key@
                    == self.view().origins[product as u64],
                None => !self.view().origins.dom().contains(product as u64),
            },
    {
        self.origins.get(product as u64)
    }

    /// Notes the product of a reduction.
    pub fn note(&mut self, key: ReductionKey, product: ProductId)
        requires
            old(self).wf(),
        ensures
            final(self).wf(),
            final(self).view() == with_reduction(old(self).view(), key@, product),
    {
        let ghost said = key@;
        if !has_id(&key.children, product) {
            let origin = key.copied();
            self.origins.insert(product as u64, origin);
        }
        self.products.insert(key, product);
        assert(self.view() =~= with_reduction(old(self).view(), said, product));
    }
}

} // verus!
