//! Diagnostics: collecting them from accepted products, and telling which came
//! and went.

use std::collections::HashSet;
use vstd::prelude::*;
use vstd::utf8::*;

use crate::framework::parse::data::green::{
    DataView, ErrorKind, ParseErrorInfo, TreeArena, TreeData, TreeView,
};
use crate::framework::parse::data::product::{
    ProductArena, ProductData, ProductDataView, ProductId, ProductView,
};
use crate::framework::parse::delta::{KeyDelta, ParseDiagnosticKey, ParsedStatus};
use crate::framework::parse::grammar::Symbol;
use crate::sort::{
    distinct_sorted, lemma_strictly_ascending_unique, sorted_distinct, strictly_ascending, Ordered,
};
use crate::utils::{fnv1a, fnv64};

verus! {

// ---------------------------------------------------------------------------
// The identity of a diagnostic

/// A number in decimal digits.
pub open spec fn decimal(n: nat) -> Seq<u8>
    decreases n,
{
    if n < 10 {
        seq![(48 + n) as u8]
    } else {
        decimal(n / 10).push((48 + n % 10) as u8)
    }
}

/// The bytes of a text.
pub open spec fn text(chars: Seq<char>) -> Seq<u8> {
    encode_utf8(chars)
}

/// A kind of error by its name.
pub open spec fn kind_text(kind: ErrorKind) -> Seq<u8> {
    match kind {
        ErrorKind::MissingToken => text("MissingToken"@),
        ErrorKind::UnexpectedToken => text("UnexpectedToken"@),
        ErrorKind::UnexpectedEndOfInput => text("UnexpectedEndOfInput"@),
        ErrorKind::Recovered => text("Recovered"@),
    }
}

/// A symbol as text.
pub open spec fn symbol_text(symbol: Symbol) -> Seq<u8> {
    match symbol {
        Symbol::T(id) => text("T("@) + decimal(id as nat) + text(")"@),
        Symbol::N(id) => text("N("@) + decimal(id as nat) + text(")"@),
        Symbol::Epsilon => text("Epsilon"@),
    }
}

/// A symbol as text, or that there is none.
pub open spec fn symbol_option_text(symbol: Option<Symbol>) -> Seq<u8> {
    match symbol {
        Some(found) => text("Some("@) + symbol_text(found) + text(")"@),
        None => text("None"@),
    }
}

/// A number as text, or that there is none.
pub open spec fn number_option_text(number: Option<usize>) -> Seq<u8> {
    match number {
        Some(found) => text("Some("@) + decimal(found as nat) + text(")"@),
        None => text("None"@),
    }
}

/// What a diagnostic says, as text.
pub open spec fn info_text(info: ParseErrorInfo) -> Seq<u8> {
    kind_text(info.kind) + text("|"@) + decimal(info.node as nat) + text("|"@)
        + symbol_option_text(info.unexpected) + text("|"@) + symbol_text(info.expected)
        + text("|"@) + (if info.recovered {
        text("true"@)
    } else {
        text("false"@)
    }) + text("|"@) + number_option_text(info.location)
}

/// The identity of a diagnostic: equal diagnostics have one identity.
pub open spec fn diagnostic_key(info: ParseErrorInfo) -> ParseDiagnosticKey {
    ParseDiagnosticKey { document_id: 0, ordinal: fnv1a(info_text(info)) }
}

fn push_text(out: &mut Vec<u8>, added: &str)
    ensures
        final(out)@ == old(out)@ + text(added@),
{
    let bytes = added.as_bytes();
    let ghost before = out@;
    let mut index: usize = 0;
    assert(out@ =~= before + bytes@.take(0));
    while index < bytes.len()
        invariant
            index <= bytes@.len(),
            before == old(out)@,
            out@ == before + bytes@.take(index as int),
        decreases bytes@.len() - index,
    {
        out.push(bytes[index]);
        index += 1;
        assert(out@ =~= before + bytes@.take(index as int));
    }
    assert(bytes@.take(index as int) =~= bytes@);
}

fn push_decimal(out: &mut Vec<u8>, number: u64)
    ensures
        final(out)@ == old(out)@ + decimal(number as nat),
    decreases number,
{
    let ghost before = out@;
    if number >= 10 {
        push_decimal(out, number / 10);
    }
    let digit: u8 = (number % 10) as u8;
    out.push(48 + digit);
    assert(out@ =~= before + decimal(number as nat));
}

fn push_symbol(out: &mut Vec<u8>, symbol: Symbol)
    ensures
        final(out)@ == old(out)@ + symbol_text(symbol),
{
    let ghost before = out@;
    match symbol {
        Symbol::T(id) => {
            push_text(out, "T(");
            push_decimal(out, id as u64);
            push_text(out, ")");
        },
        Symbol::N(id) => {
            push_text(out, "N(");
            push_decimal(out, id as u64);
            push_text(out, ")");
        },
        Symbol::Epsilon => push_text(out, "Epsilon"),
    }
    assert(out@ =~= before + symbol_text(symbol));
}

/// The identity of a diagnostic.
pub fn key_of_diagnostic(info: &ParseErrorInfo) -> (r: ParseDiagnosticKey)
    ensures
        r == diagnostic_key(*info),
{
    let mut out: Vec<u8> = Vec::new();
    match info.kind {
        ErrorKind::MissingToken => push_text(&mut out, "MissingToken"),
        ErrorKind::UnexpectedToken => push_text(&mut out, "UnexpectedToken"),
        ErrorKind::UnexpectedEndOfInput => push_text(&mut out, "UnexpectedEndOfInput"),
        ErrorKind::Recovered => push_text(&mut out, "Recovered"),
    }
    assert(out@ =~= kind_text(info.kind));
    push_text(&mut out, "|");
    push_decimal(&mut out, info.node as u64);
    push_text(&mut out, "|");
    let ghost first = out@;
    match info.unexpected {
        Some(symbol) => {
            push_text(&mut out, "Some(");
            push_symbol(&mut out, symbol);
            push_text(&mut out, ")");
        },
        None => push_text(&mut out, "None"),
    }
    assert(out@ =~= first + symbol_option_text(info.unexpected));
    push_text(&mut out, "|");
    push_symbol(&mut out, info.expected);
    push_text(&mut out, "|");
    if info.recovered {
        push_text(&mut out, "true");
    } else {
        push_text(&mut out, "false");
    }
    push_text(&mut out, "|");
    let ghost second = out@;
    match info.location {
        Some(location) => {
            push_text(&mut out, "Some(");
            push_decimal(&mut out, location as u64);
            push_text(&mut out, ")");
        },
        None => push_text(&mut out, "None"),
    }
    assert(out@ =~= second + number_option_text(info.location));
    assert(out@ =~= info_text(*info));
    ParseDiagnosticKey { document_id: 0, ordinal: fnv64(out.as_slice()) }
}

/// The identities of diagnostics.
pub open spec fn diagnostic_keys(infos: Seq<ParseErrorInfo>) -> Seq<ParseDiagnosticKey> {
    infos.map_values(|info: ParseErrorInfo| diagnostic_key(info))
}

fn keys_of_diagnostics(infos: &[ParseErrorInfo]) -> (r: Vec<ParseDiagnosticKey>)
    ensures
        r@ == diagnostic_keys(infos@),
{
    let mut out: Vec<ParseDiagnosticKey> = Vec::new();
    let mut index: usize = 0;
    while index < infos.len()
        invariant
            index <= infos@.len(),
            out@ == diagnostic_keys(infos@).take(index as int),
        decreases infos@.len() - index,
    {
        out.push(key_of_diagnostic(&infos[index]));
        index += 1;
        assert(out@ =~= diagnostic_keys(infos@).take(index as int));
    }
    assert(out@ =~= diagnostic_keys(infos@));
    out
}

/// The values of an ascending list that another list does not hold.
fn difference(a: &Vec<ParseDiagnosticKey>, b: &Vec<ParseDiagnosticKey>) -> (r: Vec<
    ParseDiagnosticKey,
>)
    requires
        strictly_ascending(a@),
    ensures
        strictly_ascending(r@),
        r@.to_set() == a@.to_set().difference(b@.to_set()),
        r@ == distinct_sorted(a@.to_set().difference(b@.to_set())),
{
    let mut out: Vec<ParseDiagnosticKey> = Vec::new();
    let mut index: usize = 0;
    while index < a.len()
        invariant
            index <= a@.len(),
            strictly_ascending(a@),
            strictly_ascending(out@),
            forall|k: ParseDiagnosticKey|
                #[trigger] out@.contains(k) <==> a@.take(index as int).contains(k) && !b@.contains(
                    k,
                ),
        decreases a@.len() - index,
    {
        let key = a[index];
        let ghost before = out@;
        let ghost seen = a@.take(index as int);
        let ghost next = a@.take(index as int + 1);
        assert(next =~= seen.push(key));
        let known = has_key(b, key);
        if !known {
            out.push(key);
        }
        proof {
            assert forall|i: int, j: int| 0 <= i < j < out@.len() implies (
            #[trigger] out@[i]).le_spec(#[trigger] out@[j]) && out@[i] != out@[j] by {
                if j == before.len() {
                    assert(before.contains(before[i]));
                    assert(seen.contains(before[i]));
                    let k = choose|k: int| 0 <= k < seen.len() && seen[k] == before[i];
                    assert(a@[k].le_spec(a@[index as int]) && a@[k] != a@[index as int]);
                }
            }
            assert forall|k: ParseDiagnosticKey|
                #[trigger] out@.contains(k) <==> next.contains(k) && !b@.contains(k) by {
                lemma_key_push(seen, key, k);
                if !known {
                    lemma_key_push(before, key, k);
                }
            }
        }
        index += 1;
    }
    proof {
        assert(a@.take(index as int) =~= a@);
        assert forall|k: ParseDiagnosticKey| out@.to_set().contains(k) == a@.to_set().difference(
            b@.to_set(),
        ).contains(k) by {
            assert(out@.contains(k) <==> a@.contains(k) && !b@.contains(k));
        }
        assert(out@.to_set() =~= a@.to_set().difference(b@.to_set()));
        lemma_strictly_ascending_unique(
            out@,
            distinct_sorted(a@.to_set().difference(b@.to_set())),
        );
    }
    out
}

proof fn lemma_key_push(
    list: Seq<ParseDiagnosticKey>,
    added: ParseDiagnosticKey,
    key: ParseDiagnosticKey,
)
    ensures
        list.push(added).contains(key) <==> list.contains(key) || key == added,
{
    if list.contains(key) {
        let k = choose|k: int| 0 <= k < list.len() && list[k] == key;
        assert(list.push(added)[k] == key);
    }
    if key == added {
        assert(list.push(added)[list.len() as int] == key);
    }
    if list.push(added).contains(key) && key != added {
        let k = choose|k: int| 0 <= k < list.push(added).len() && list.push(added)[k] == key;
        assert(list[k] == key);
    }
}

fn has_key(list: &Vec<ParseDiagnosticKey>, key: ParseDiagnosticKey) -> (r: bool)
    ensures
        r == list@.contains(key),
{
    let mut index: usize = 0;
    while index < list.len()
        invariant
            index <= list@.len(),
            forall|k: int| 0 <= k < index ==> #[trigger] list@[k] != key,
        decreases list@.len() - index,
    {
        if list[index] == key {
            return true;
        }
        index += 1;
    }
    false
}

/// Which diagnostics came and went: equal ones are never mentioned.
pub fn diagnostic_delta(previous: &[ParseErrorInfo], current: &[ParseErrorInfo]) -> (r: KeyDelta<
    ParseDiagnosticKey,
>)
    ensures
        r.inserted@ == distinct_sorted(
            diagnostic_keys(current@).to_set().difference(diagnostic_keys(previous@).to_set()),
        ),
        r.updated@.len() == 0,
        r.removed@ == distinct_sorted(
            diagnostic_keys(previous@).to_set().difference(diagnostic_keys(current@).to_set()),
        ),
        r.sorted_disjoint(),
{
    let before = sorted_distinct(&keys_of_diagnostics(previous));
    let after = sorted_distinct(&keys_of_diagnostics(current));
    let inserted = difference(&after, &before);
    let removed = difference(&before, &after);
    proof {
        assert forall|i: int, j: int|
            0 <= i < inserted@.len() && 0 <= j < removed@.len() implies #[trigger] inserted@[i]
            != #[trigger] removed@[j] by {
            assert(inserted@.to_set().contains(inserted@[i]));
            assert(removed@.to_set().contains(removed@[j]));
        }
    }
    KeyDelta { inserted, updated: Vec::new(), removed }
}

/// How a parse ended, by its diagnostics and by whether it was accepted.
pub open spec fn status_by(diagnostics: nat, no_acceptance: bool) -> ParsedStatus {
    if diagnostics == 0 {
        ParsedStatus::Clean
    } else if no_acceptance {
        ParsedStatus::Unrecovered { regions: diagnostics as usize }
    } else {
        ParsedStatus::Recovered { segments: diagnostics as usize }
    }
}

/// How a parse ended.
pub fn status_of(infos: &[ParseErrorInfo], no_acceptance: bool) -> (r: ParsedStatus)
    ensures
        r == status_by(infos@.len(), no_acceptance),
{
    if infos.len() == 0 {
        ParsedStatus::Clean
    } else if no_acceptance {
        ParsedStatus::Unrecovered { regions: infos.len() }
    } else {
        ParsedStatus::Recovered { segments: infos.len() }
    }
}

// ---------------------------------------------------------------------------
// Collecting diagnostics

/// A list with a diagnostic added, unless it is there.
pub open spec fn noted(list: Seq<ParseErrorInfo>, info: ParseErrorInfo) -> Seq<ParseErrorInfo> {
    if list.contains(info) {
        list
    } else {
        list.push(info)
    }
}

/// A list with further diagnostics added, each once.
pub open spec fn all_noted(list: Seq<ParseErrorInfo>, infos: Seq<ParseErrorInfo>) -> Seq<
    ParseErrorInfo,
>
    decreases infos.len(),
{
    if infos.len() == 0 {
        list
    } else {
        noted(all_noted(list, infos.drop_last()), infos.last())
    }
}

/// What an error product says.
pub open spec fn error_info(trees: Seq<TreeView>, product: ProductView) -> Option<ParseErrorInfo> {
    if product.green < trees.len() {
        match trees[product.green as int].data {
            DataView::Error { kind, node, unexpected, expected, recovered, location, .. } => Some(
                ParseErrorInfo {
                    kind,
                    node,
                    length: trees[product.green as int].length,
                    unexpected,
                    expected,
                    recovered,
                    location,
                },
            ),
            _ => None,
        }
    } else {
        None
    }
}

/// The list after a walk over products: every product is visited once, before
/// its children, and errors are noted as they are met.
pub open spec fn walked(
    products: Seq<ProductView>,
    trees: Seq<TreeView>,
    stack: Seq<ProductId>,
    seen: Set<int>,
    list: Seq<ParseErrorInfo>,
) -> Seq<ParseErrorInfo>
    decreases unvisited(products.len() as int, seen), stack.len(),
    when seen.finite()
    via walked_decreases
{
    if stack.len() == 0 {
        list
    } else {
        let id = stack.last();
        let rest = stack.drop_last();
        if id >= products.len() || seen.contains(id as int) {
            walked(products, trees, rest, seen, list)
        } else {
            let marked = seen.insert(id as int);
            match products[id as int].data {
                ProductDataView::Error { .. } => match error_info(trees, products[id as int]) {
                    Some(info) => walked(products, trees, rest, marked, noted(list, info)),
                    None => walked(products, trees, rest, marked, list),
                },
                ProductDataView::Node { children, .. } => walked(
                    products,
                    trees,
                    rest + children.reverse(),
                    marked,
                    list,
                ),
                ProductDataView::Token { .. } => walked(products, trees, rest, marked, list),
            }
        }
    }
}

/// How many products were not visited.
pub open spec fn unvisited(count: int, seen: Set<int>) -> nat {
    vstd::set_lib::set_int_range(0, count).difference(seen).len()
}

proof fn lemma_unvisited(count: int, seen: Set<int>, id: int)
    requires
        0 <= id < count,
        !seen.contains(id),
    ensures
        unvisited(count, seen.insert(id)) < unvisited(count, seen),
{
    vstd::set_lib::lemma_int_range(0, count);
    let before = vstd::set_lib::set_int_range(0, count).difference(seen);
    let after = vstd::set_lib::set_int_range(0, count).difference(seen.insert(id));
    assert(after =~= before.remove(id));
    assert(before.contains(id));
    assert(before.finite()) by {
        vstd::set_lib::lemma_len_difference(vstd::set_lib::set_int_range(0, count), seen);
    }
}

#[via_fn]
proof fn walked_decreases(
    products: Seq<ProductView>,
    trees: Seq<TreeView>,
    stack: Seq<ProductId>,
    seen: Set<int>,
    list: Seq<ParseErrorInfo>,
) {
    if stack.len() > 0 {
        let id = stack.last();
        if id < products.len() && !seen.contains(id as int) {
            lemma_unvisited(products.len() as int, seen, id as int);
        }
    }
}

/// The diagnostics of a parse: those that were noted while it ran, and those
/// of the error products that the roots reach, each once.
pub open spec fn collected(
    noted_before: Seq<ParseErrorInfo>,
    products: Seq<ProductView>,
    trees: Seq<TreeView>,
    roots: Seq<ProductId>,
) -> Seq<ParseErrorInfo> {
    walked(
        products,
        trees,
        roots.reverse(),
        Set::empty(),
        all_noted(Seq::empty(), noted_before),
    )
}

fn note(list: &mut Vec<ParseErrorInfo>, info: ParseErrorInfo)
    ensures
        final(list)@ == noted(old(list)@, info),
{
    let mut index: usize = 0;
    while index < list.len()
        invariant
            index <= list@.len(),
            list@ == old(list)@,
            forall|k: int| 0 <= k < index ==> #[trigger] list@[k] != info,
        decreases list@.len() - index,
    {
        if list[index] == info {
            return ;
        }
        index += 1;
    }
    list.push(info);
}

/// The diagnostics of a parse.
pub fn collect_parse_diagnostics(
    noted_before: &[ParseErrorInfo],
    products: &ProductArena,
    trees: &TreeArena,
    roots: &[ProductId],
) -> (r: Vec<ParseErrorInfo>)
    requires
        products.wf(),
        trees.wf(),
    ensures
        r@ == collected(noted_before@, products@, trees@, roots@),
{
    broadcast use vstd::std_specs::hash::group_hash_axioms;

    let mut list: Vec<ParseErrorInfo> = Vec::new();
    let mut index: usize = 0;
    assert(noted_before@.take(0) =~= Seq::<ParseErrorInfo>::empty());
    while index < noted_before.len()
        invariant
            index <= noted_before@.len(),
            list@ == all_noted(Seq::empty(), noted_before@.take(index as int)),
        decreases noted_before@.len() - index,
    {
        assert(noted_before@.take(index as int + 1).drop_last() =~= noted_before@.take(
            index as int,
        ));
        note(&mut list, noted_before[index]);
        index += 1;
    }
    assert(noted_before@.take(index as int) =~= noted_before@);
    let mut stack: Vec<ProductId> = Vec::new();
    push_reversed(&mut stack, roots);
    assert(stack@ =~= roots@.reverse());
    let ghost target = collected(noted_before@, products@, trees@, roots@);
    let mut seen: HashSet<usize> = HashSet::new();
    let ghost mut marks: Set<int> = Set::empty();
    let count: usize = products.len();
    while stack.len() > 0
        invariant
            products.wf(),
            trees.wf(),
            count == products@.len(),
            marks.finite(),
            forall|id: usize| #[trigger] seen@.contains(id) <==> marks.contains(id as int),
            forall|id: int| #[trigger] marks.contains(id) ==> 0 <= id < count,
            walked(products@, trees@, stack@, marks, list@) == target,
        decreases unvisited(count as int, marks), stack@.len(),
    {
        broadcast use vstd::std_specs::hash::group_hash_axioms;

        let ghost before = stack@;
        let id: usize = stack.pop().unwrap();
        assert(stack@ =~= before.drop_last());
        if id < count && !seen.contains(&id) {
            let ghost old_marks = marks;
            seen.insert(id);
            proof {
                marks = marks.insert(id as int);
                lemma_unvisited(count as int, old_marks, id as int);
            }
            let product = products.get(id).unwrap();
            match &product.data {
                ProductData::Error { .. } => {
                    match trees.get(product.green) {
                        Some(tree) => {
                            match &tree.data {
                                TreeData::Error {
                                    kind,
                                    node,
                                    unexpected,
                                    expected,
                                    recovered,
                                    location,
                                    ..
                                } => {
                                    note(
                                        &mut list,
                                        ParseErrorInfo {
                                            kind: *kind,
                                            node: *node,
                                            length: tree.length,
                                            unexpected: *unexpected,
                                            expected: *expected,
                                            recovered: *recovered,
                                            location: *location,
                                        },
                                    );
                                },
                                _ => {},
                            }
                        },
                        None => {},
                    }
                },
                ProductData::Node { children, .. } => {
                    push_reversed(&mut stack, children.as_slice());
                },
                ProductData::Token { .. } => {},
            }
        }
    }
    list
}

/// Puts a list on a stack so that its first value comes off first.
fn push_reversed(stack: &mut Vec<ProductId>, ids: &[ProductId])
    ensures
        final(stack)@ == old(stack)@ + ids@.reverse(),
{
    let ghost before = stack@;
    let mut index: usize = ids.len();
    assert(stack@ =~= before + ids@.reverse().take(0));
    while index > 0
        invariant
            index <= ids@.len(),
            before == old(stack)@,
            stack@ == before + ids@.reverse().take(ids@.len() - index),
        decreases index,
    {
        index -= 1;
        stack.push(ids[index]);
        assert(stack@ =~= before + ids@.reverse().take(ids@.len() - index));
    }
    assert(ids@.reverse().take(ids@.len() as int) =~= ids@.reverse());
}

// ---------------------------------------------------------------------------
// Laws

/// A product is another one, or is reached from it over so many children.
pub open spec fn reaches(
    products: Seq<ProductView>,
    from: ProductId,
    to: ProductId,
    steps: nat,
) -> bool
    decreases steps,
{
    &&& from < products.len()
    &&& if steps == 0 {
        from == to
    } else {
        exists|child: ProductId| #[trigger]
            is_child(products, from, child) && reaches(products, child, to, (steps - 1) as nat)
    }
}

/// A product is a child of another one.
pub open spec fn is_child(products: Seq<ProductView>, parent: ProductId, child: ProductId) -> bool {
    products[parent as int].data matches ProductDataView::Node { children, .. }
        && children.contains(child)
}

/// What was visited was left with nothing open: its children were visited or are
/// to be, and what it says of an error was noted.
spec fn visits_stand(
    products: Seq<ProductView>,
    trees: Seq<TreeView>,
    stack: Seq<ProductId>,
    seen: Set<int>,
    list: Seq<ParseErrorInfo>,
) -> bool {
    forall|id: ProductId|
        id < products.len() && #[trigger] seen.contains(id as int) ==> {
            &&& forall|child: ProductId| #[trigger]
                is_child(products, id, child) && child < products.len() ==> is_met(
                    stack,
                    seen,
                    child,
                )
            &&& products[id as int].data is Error && error_info(trees, products[id as int]) is Some
                ==> list.contains(error_info(trees, products[id as int])->Some_0)
        }
}

/// A product was visited or is to be.
spec fn is_met(stack: Seq<ProductId>, seen: Set<int>, id: ProductId) -> bool {
    seen.contains(id as int) || stack.contains(id)
}

proof fn lemma_noted_holds(list: Seq<ParseErrorInfo>, info: ParseErrorInfo)
    ensures
        noted(list, info).contains(info),
        forall|other: ParseErrorInfo| #[trigger]
            list.contains(other) ==> noted(list, info).contains(other),
{
    let all = noted(list, info);
    if !list.contains(info) {
        assert(all[list.len() as int] == info);
    }
    assert forall|other: ParseErrorInfo| #[trigger] list.contains(other) implies all.contains(
        other,
    ) by {
        let k = list.index_of(other);
        assert(all[k] == other);
    }
}

/// From what was visited only what was visited is reached, once nothing is left
/// to visit.
proof fn lemma_visited_is_closed(
    products: Seq<ProductView>,
    trees: Seq<TreeView>,
    seen: Set<int>,
    list: Seq<ParseErrorInfo>,
    from: ProductId,
    to: ProductId,
    steps: nat,
)
    requires
        visits_stand(products, trees, Seq::<ProductId>::empty(), seen, list),
        seen.contains(from as int),
        reaches(products, from, to, steps),
    ensures
        seen.contains(to as int),
        to < products.len(),
    decreases steps,
{
    if steps > 0 {
        let child = choose|child: ProductId| #[trigger]
            is_child(products, from, child) && reaches(products, child, to, (steps - 1) as nat);
        assert(is_child(products, from, child) && child < products.len());
        assert(is_met(Seq::<ProductId>::empty(), seen, child));
        lemma_visited_is_closed(products, trees, seen, list, child, to, (steps - 1) as nat);
    }
}

proof fn lemma_walk_meets_errors(
    products: Seq<ProductView>,
    trees: Seq<TreeView>,
    stack: Seq<ProductId>,
    seen: Set<int>,
    list: Seq<ParseErrorInfo>,
    from: ProductId,
    to: ProductId,
    steps: nat,
)
    requires
        seen.finite(),
        visits_stand(products, trees, stack, seen, list),
        is_met(stack, seen, from),
        reaches(products, from, to, steps),
        products[to as int].data is Error,
        error_info(trees, products[to as int]) is Some,
    ensures
        walked(products, trees, stack, seen, list).contains(
            error_info(trees, products[to as int])->Some_0,
        ),
    decreases unvisited(products.len() as int, seen), stack.len(),
{
    if stack.len() == 0 {
        assert(stack =~= Seq::<ProductId>::empty());
        lemma_visited_is_closed(products, trees, seen, list, from, to, steps);
    } else {
        let id = stack.last();
        let rest = stack.drop_last();
        assert forall|other: ProductId| #[trigger] stack.contains(other) implies other == id
            || rest.contains(other) by {
            let k = stack.index_of(other);
            if k < rest.len() {
                assert(rest[k] == other);
            }
        }
        if id >= products.len() || seen.contains(id as int) {
            assert forall|other: ProductId| other < products.len() && is_met(
                stack,
                seen,
                other,
            ) implies #[trigger] is_met(rest, seen, other) by {}
            assert(is_met(rest, seen, from));
            lemma_walk_meets_errors(products, trees, rest, seen, list, from, to, steps);
        } else {
            let marked = seen.insert(id as int);
            lemma_unvisited(products.len() as int, seen, id as int);
            let (next, more) = match products[id as int].data {
                ProductDataView::Error { .. } => match error_info(trees, products[id as int]) {
                    Some(info) => (rest, noted(list, info)),
                    None => (rest, list),
                },
                ProductDataView::Node { children, .. } => (rest + children.reverse(), list),
                ProductDataView::Token { .. } => (rest, list),
            };
            assert(list == more || more == noted(
                list,
                error_info(trees, products[id as int])->Some_0,
            ));
            if error_info(trees, products[id as int]) is Some {
                lemma_noted_holds(list, error_info(trees, products[id as int])->Some_0);
            }
            assert forall|other: ProductId| #[trigger] rest.contains(other) implies next.contains(
                other,
            ) by {
                let k = rest.index_of(other);
                assert(next[k] == other);
            }
            assert forall|other: ProductId| is_met(stack, seen, other) implies #[trigger] is_met(
                next,
                marked,
                other,
            ) by {}
            assert forall|child: ProductId| #[trigger] is_child(products, id, child) implies is_met(
                next,
                marked,
                child,
            ) by {
                let children = products[id as int].data->Node_children;
                let k = children.index_of(child);
                let back = children.reverse();
                assert(back[children.len() - 1 - k] == child);
                assert(next[rest.len() + (children.len() - 1 - k)] == child);
            }
            assert(visits_stand(products, trees, next, marked, more)) by {
                assert forall|other: ProductId|
                    other < products.len() && #[trigger] marked.contains(other as int) implies {
                    &&& forall|child: ProductId| #[trigger]
                        is_child(products, other, child) && child < products.len() ==> is_met(
                            next,
                            marked,
                            child,
                        )
                    &&& products[other as int].data is Error && error_info(
                        trees,
                        products[other as int],
                    ) is Some ==> more.contains(error_info(trees, products[other as int])->Some_0)
                } by {
                    if other != id {
                        assert(seen.contains(other as int));
                        assert forall|child: ProductId| #[trigger]
                            is_child(products, other, child) && child
                                < products.len() implies is_met(next, marked, child) by {
                            assert(is_met(stack, seen, child));
                        }
                    }
                }
            }
            assert(is_met(next, marked, from));
            lemma_walk_meets_errors(products, trees, next, marked, more, from, to, steps);
        }
    }
}

proof fn lemma_walk_keeps(
    products: Seq<ProductView>,
    trees: Seq<TreeView>,
    stack: Seq<ProductId>,
    seen: Set<int>,
    list: Seq<ParseErrorInfo>,
    info: ParseErrorInfo,
)
    requires
        seen.finite(),
        list.contains(info),
    ensures
        walked(products, trees, stack, seen, list).contains(info),
    decreases unvisited(products.len() as int, seen), stack.len(),
{
    if stack.len() > 0 {
        let id = stack.last();
        let rest = stack.drop_last();
        if id >= products.len() || seen.contains(id as int) {
            lemma_walk_keeps(products, trees, rest, seen, list, info);
        } else {
            let marked = seen.insert(id as int);
            lemma_unvisited(products.len() as int, seen, id as int);
            match products[id as int].data {
                ProductDataView::Error { .. } => match error_info(trees, products[id as int]) {
                    Some(own) => {
                        lemma_noted_holds(list, own);
                        lemma_walk_keeps(
                            products,
                            trees,
                            rest,
                            marked,
                            noted(list, own),
                            info,
                        );
                    },
                    None => {
                        lemma_walk_keeps(products, trees, rest, marked, list, info);
                    },
                },
                ProductDataView::Node { children, .. } => {
                    lemma_walk_keeps(
                        products,
                        trees,
                        rest + children.reverse(),
                        marked,
                        list,
                        info,
                    );
                },
                ProductDataView::Token { .. } => {
                    lemma_walk_keeps(products, trees, rest, marked, list, info);
                },
            }
        }
    }
}

proof fn lemma_all_noted(list: Seq<ParseErrorInfo>, infos: Seq<ParseErrorInfo>, info: ParseErrorInfo)
    requires
        list.contains(info) || infos.contains(info),
    ensures
        all_noted(list, infos).contains(info),
    decreases infos.len(),
{
    if infos.len() > 0 {
        let rest = infos.drop_last();
        lemma_noted_holds(all_noted(list, rest), infos.last());
        if list.contains(info) || rest.contains(info) {
            lemma_all_noted(list, rest, info);
        } else {
            let k = infos.index_of(info);
            if k < rest.len() {
                assert(rest[k] == info);
            }
        }
    }
}

/// No error is passed over: what an error product says that a root reaches, over
/// however many products, is among the diagnostics of a parse.
pub proof fn lemma_every_error_is_reported(
    noted_before: Seq<ParseErrorInfo>,
    products: Seq<ProductView>,
    trees: Seq<TreeView>,
    roots: Seq<ProductId>,
    root: ProductId,
    product: ProductId,
    steps: nat,
)
    requires
        roots.contains(root),
        reaches(products, root, product, steps),
        products[product as int].data is Error,
        error_info(trees, products[product as int]) is Some,
    ensures
        collected(noted_before, products, trees, roots).contains(
            error_info(trees, products[product as int])->Some_0,
        ),
{
    let back = roots.reverse();
    let k = roots.index_of(root);
    assert(back[roots.len() - 1 - k] == root);
    let list = all_noted(Seq::empty(), noted_before);
    assert(visits_stand(products, trees, back, Set::<int>::empty(), list));
    assert(is_met(back, Set::<int>::empty(), root));
    lemma_walk_meets_errors(
        products,
        trees,
        back,
        Set::empty(),
        list,
        root,
        product,
        steps,
    );
}

/// What was noted while a parse ran is among its diagnostics.
pub proof fn lemma_every_note_is_reported(
    noted_before: Seq<ParseErrorInfo>,
    products: Seq<ProductView>,
    trees: Seq<TreeView>,
    roots: Seq<ProductId>,
    info: ParseErrorInfo,
)
    requires
        noted_before.contains(info),
    ensures
        collected(noted_before, products, trees, roots).contains(info),
{
    let list = all_noted(Seq::empty(), noted_before);
    lemma_all_noted(Seq::empty(), noted_before, info);
    lemma_walk_keeps(products, trees, roots.reverse(), Set::empty(), list, info);
}

} // verus!
