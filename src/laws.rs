use vstd::prelude::*;
use crate::value::{Value, entries_of, is_text, text_of, is_path_key, url_name, children_name};
use crate::flatten::{
    is_own_field, own_fields, header_fields, path_entries, descendants, descendants_in,
    is_child_descriptor, is_top_descriptor, collected, collected_in,
};

verus! {

broadcast use vstd::seq::group_seq_axioms;

/// Every top-level entry of a document goes to exactly one place: an entry
/// whose key is not a path key goes to the header, one whose key is a path key
/// becomes a resource, and the two together are as many as the entries.
pub proof fn lemma_split_partitions(es: Seq<(Value, Value)>)
    ensures
        header_fields(es).len() + path_entries(es).len() == es.len(),
        forall|i: int|
            0 <= i < es.len() && !is_path_key(#[trigger] es[i].0) ==> header_fields(es).contains(es[i]),
        forall|i: int|
            0 <= i < es.len() && is_path_key(#[trigger] es[i].0) ==> path_entries(es).contains(es[i]),
        forall|x: (Value, Value)| #[trigger] header_fields(es).contains(x) ==> !is_path_key(x.0),
        forall|x: (Value, Value)| #[trigger] path_entries(es).contains(x) ==> is_path_key(x.0),
    decreases es.len(),
{
    if es.len() > 0 {
        let init = es.drop_last();
        lemma_split_partitions(init);
        assert forall|i: int|
            0 <= i < es.len() && !is_path_key(#[trigger] es[i].0) implies header_fields(es).contains(es[i]) by {
            if i < es.len() - 1 {
                assert(init[i] == es[i]);
                let k = choose|k: int| 0 <= k < header_fields(init).len() && header_fields(init)[k] == init[i];
                assert(header_fields(es)[k] == es[i]);
            } else {
                assert(header_fields(es).last() == es[i]);
            }
        }
        assert forall|i: int|
            0 <= i < es.len() && is_path_key(#[trigger] es[i].0) implies path_entries(es).contains(es[i]) by {
            if i < es.len() - 1 {
                assert(init[i] == es[i]);
                let k = choose|k: int| 0 <= k < path_entries(init).len() && path_entries(init)[k] == init[i];
                assert(path_entries(es)[k] == es[i]);
            } else {
                assert(path_entries(es).last() == es[i]);
            }
        }
        assert forall|x: (Value, Value)| #[trigger] header_fields(es).contains(x) implies !is_path_key(x.0) by {
            let k = choose|k: int| 0 <= k < header_fields(es).len() && header_fields(es)[k] == x;
            if k < header_fields(init).len() {
                assert(header_fields(init).contains(x));
            }
        }
        assert forall|x: (Value, Value)| #[trigger] path_entries(es).contains(x) implies is_path_key(x.0) by {
            let k = choose|k: int| 0 <= k < path_entries(es).len() && path_entries(es)[k] == x;
            if k < path_entries(init).len() {
                assert(path_entries(init).contains(x));
            }
        }
    }
}

/// The own fields of a resource are exactly its entries whose key is an own
/// field, kept unchanged: each such entry is among them and nothing else is.
pub proof fn lemma_own_fields_kept(es: Seq<(Value, Value)>, top: bool)
    ensures
        own_fields(es, top).len() <= es.len(),
        forall|i: int|
            0 <= i < es.len() && is_own_field(#[trigger] es[i].0, top) ==> own_fields(es, top).contains(es[i]),
        forall|x: (Value, Value)| #[trigger] own_fields(es, top).contains(x) ==> es.contains(x) && is_own_field(x.0, top),
    decreases es.len(),
{
    if es.len() > 0 {
        let init = es.drop_last();
        lemma_own_fields_kept(init, top);
        assert forall|i: int|
            0 <= i < es.len() && is_own_field(#[trigger] es[i].0, top) implies own_fields(es, top).contains(es[i]) by {
            if i < es.len() - 1 {
                assert(init[i] == es[i]);
                let k = choose|k: int| 0 <= k < own_fields(init, top).len() && own_fields(init, top)[k] == init[i];
                assert(own_fields(es, top)[k] == es[i]);
            } else {
                assert(own_fields(es, top).last() == es[i]);
            }
        }
        assert forall|x: (Value, Value)| #[trigger] own_fields(es, top).contains(x) implies es.contains(x) && is_own_field(x.0, top) by {
            let k = choose|k: int| 0 <= k < own_fields(es, top).len() && own_fields(es, top)[k] == x;
            if k < own_fields(init, top).len() {
                assert(own_fields(init, top).contains(x));
                let m = choose|m: int| 0 <= m < init.len() && init[m] == x;
                assert(es[m] == x);
            } else {
                assert(es[es.len() - 1] == x);
            }
        }
    }
}

/// Later entries never take back descriptors that earlier ones yielded.
pub proof fn lemma_descendants_in_monotone(node: Value, a: int, b: int)
    requires
        0 <= a <= b <= entries_of(node).len(),
    ensures
        (descendants_in(node, a) as int) <= (descendants_in(node, b) as int),
    decreases b - a,
{
    if a < b {
        lemma_descendants_in_monotone(node, a, b - 1);
    }
}

/// What the path-keyed entry `j` of `node` yields stands, in what its first `n`
/// entries yield, between the counts of what the first `j` and the first
/// `j + 1` entries yield.
pub proof fn lemma_collected_segment(node: Value, n: int, base: Seq<char>, out: Seq<Value>, j: int)
    requires
        collected_in(node, n, base, out),
        0 <= j < n,
        is_path_key(entries_of(node)[j].0),
    ensures
        (descendants_in(node, j + 1) as int) <= out.len(),
        collected(
            entries_of(node)[j].1,
            base + text_of(entries_of(node)[j].0),
            out.subrange((descendants_in(node, j) as int), (descendants_in(node, j + 1) as int)),
        ),
    decreases n,
{
    let es = entries_of(node);
    if j == n - 1 {
        assert(out.subrange((descendants_in(node, j) as int), (descendants_in(node, j + 1) as int)) =~= out.skip(
            out.len() - descendants(es[n - 1].1),
        ));
    } else if is_path_key(es[n - 1].0) {
        let m = out.len() - descendants(es[n - 1].1);
        lemma_collected_segment(node, n - 1, base, out.take(m), j);
        assert(out.take(m).subrange((descendants_in(node, j) as int), (descendants_in(node, j + 1) as int)) =~= out.subrange(
            (descendants_in(node, j) as int),
            (descendants_in(node, j + 1) as int),
        ));
    } else {
        lemma_collected_segment(node, n - 1, base, out, j);
    }
}

/// Depth-first order: of two path-keyed entries of a resource, everything the
/// earlier one yields comes before anything the later one yields, and each
/// yields its own descendants before itself.
pub proof fn lemma_depth_first(node: Value, base: Seq<char>, out: Seq<Value>, x: int, y: int)
    requires
        collected_in(node, entries_of(node).len() as int, base, out),
        0 <= x < y < entries_of(node).len(),
        is_path_key(entries_of(node)[x].0),
        is_path_key(entries_of(node)[y].0),
    ensures
        ({
            let es = entries_of(node);
            let sx = (descendants_in(node, x) as int);
            let ex = (descendants_in(node, x + 1) as int);
            let sy = (descendants_in(node, y) as int);
            let ey = (descendants_in(node, y + 1) as int);
            &&& 0 <= sx <= ex <= sy <= ey <= out.len()
            &&& collected(es[x].1, base + text_of(es[x].0), out.subrange(sx, ex))
            &&& collected(es[y].1, base + text_of(es[y].0), out.subrange(sy, ey))
        }),
{
    let n = entries_of(node).len() as int;
    lemma_collected_segment(node, n, base, out, x);
    lemma_collected_segment(node, n, base, out, y);
    lemma_descendants_in_monotone(node, x + 1, y);
    lemma_descendants_in_monotone(node, 0, x);
}

/// Urls compose by concatenation: for a top-level resource at `a` whose entry
/// `i` is a path key `b` for a child whose entry `j` is a path key `c` for a
/// mapping, `child_resources` holds that mapping's descriptor, at `a + b + c`.
pub proof fn lemma_url_composition(d: Value, r: Value, a: Seq<char>, i: int, j: int)
    requires
        is_top_descriptor(d, r, a),
        0 <= i < entries_of(r).len(),
        is_path_key(entries_of(r)[i].0),
        0 <= j < entries_of(entries_of(r)[i].1).len(),
        is_path_key(entries_of(entries_of(r)[i].1)[j].0),
        entries_of(entries_of(r)[i].1)[j].1 is Mapping,
    ensures
        ({
            let b = text_of(entries_of(r)[i].0);
            let child = entries_of(r)[i].1;
            let c = text_of(entries_of(child)[j].0);
            let grandchild = entries_of(child)[j].1;
            let cs = d->Mapping_0@[own_fields(entries_of(r), true).len() + 1int].1->Sequence_0@;
            exists|x: int|
                0 <= x < cs.len() && is_child_descriptor(#[trigger] cs[x], grandchild, a + b + c)
        }),
{
    let b = text_of(entries_of(r)[i].0);
    let child = entries_of(r)[i].1;
    let c = text_of(entries_of(child)[j].0);
    let grandchild = entries_of(child)[j].1;
    let cs = d->Mapping_0@[own_fields(entries_of(r), true).len() + 1int].1->Sequence_0@;
    lemma_collected_segment(r, entries_of(r).len() as int, a, cs, i);
    let s1 = (descendants_in(r, i) as int);
    let seg1 = cs.subrange(s1, (descendants_in(r, i + 1) as int));
    assert(child is Mapping);
    let inner = seg1.drop_last();
    lemma_collected_segment(child, entries_of(child).len() as int, a + b, inner, j);
    let s2 = (descendants_in(child, j) as int);
    let e2 = (descendants_in(child, j + 1) as int);
    let seg2 = inner.subrange(s2, e2);
    assert((a + b) + c =~= a + b + c);
    let x = s1 + e2 - 1;
    assert(seg2.last() == cs[x]);
}

/// A top-level resource that is not a mapping gets a descriptor with no own
/// fields: only its `url` and an empty `child_resources`.
pub proof fn lemma_degenerate_resource(d: Value, r: Value, url: Seq<char>)
    requires
        !(r is Mapping),
        is_top_descriptor(d, r, url),
    ensures
        d->Mapping_0@.len() == 2,
        is_text(d->Mapping_0@[0].0, url_name()),
        is_text(d->Mapping_0@[0].1, url),
        is_text(d->Mapping_0@[1].0, children_name()),
        d->Mapping_0@[1].1 is Sequence,
        d->Mapping_0@[1].1->Sequence_0@.len() == 0,
{
    assert(entries_of(r).len() == 0);
    assert(own_fields(entries_of(r), true).len() == 0);
}

} // verus!
