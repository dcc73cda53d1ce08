use vstd::prelude::*;
use vstd::string::*;
use crate::value::{
    Value, entries_of, is_text, text_of, is_path_key, url_name, children_name, is_path_key_exec,
    is_named,
};

verus! {

broadcast use vstd::std_specs::vec::group_vec_axioms, vstd::seq::group_seq_axioms;

/// The fields a resource keeps as its own: no path keys, and no field whose
/// name the descriptor reserves (`url`, and `child_resources` on a top-level
/// resource).
pub open spec fn is_own_field(k: Value, top: bool) -> bool {
    !is_path_key(k) && !is_text(k, url_name()) && !(top && is_text(k, children_name()))
}

/// The own fields of `es`, in their order.
pub open spec fn own_fields(es: Seq<(Value, Value)>, top: bool) -> Seq<(Value, Value)>
    decreases es.len(),
{
    if es.len() == 0 {
        Seq::empty()
    } else {
        let r = own_fields(es.drop_last(), top);
        if is_own_field(es.last().0, top) {
            r.push(es.last())
        } else {
            r
        }
    }
}

/// The entries of `es` whose key is not a path key, in their order.
pub open spec fn header_fields(es: Seq<(Value, Value)>) -> Seq<(Value, Value)>
    decreases es.len(),
{
    if es.len() == 0 {
        Seq::empty()
    } else {
        let r = header_fields(es.drop_last());
        if !is_path_key(es.last().0) {
            r.push(es.last())
        } else {
            r
        }
    }
}

/// The entries of `es` whose key is a path key, in their order.
pub open spec fn path_entries(es: Seq<(Value, Value)>) -> Seq<(Value, Value)>
    decreases es.len(),
{
    if es.len() == 0 {
        Seq::empty()
    } else {
        let r = path_entries(es.drop_last());
        if is_path_key(es.last().0) {
            r.push(es.last())
        } else {
            r
        }
    }
}

/// How many descriptors collecting `v` yields: one for `v` if it is a
/// mapping, after those of all its nested path-keyed children.
pub open spec fn descendants(v: Value) -> nat
    decreases v, entries_of(v).len() + 1,
{
    match v {
        Value::Mapping(h) => descendants_in(v, h@.len() as int) + 1,
        _ => 0,
    }
}

/// How many descriptors the first `n` entries of `node` yield.
pub open spec fn descendants_in(node: Value, n: int) -> nat
    decreases node, if n < 0 { 0 } else { n as nat },
{
    let es = entries_of(node);
    if n <= 0 || n > es.len() {
        0
    } else if is_path_key(es[n - 1].0) {
        descendants_in(node, n - 1) + descendants(es[n - 1].1)
    } else {
        descendants_in(node, n - 1)
    }
}

/// `d` is the descriptor of a nested resource `node` at `url`: its own fields in
/// their order, then `url`.
pub open spec fn is_child_descriptor(d: Value, node: Value, url: Seq<char>) -> bool {
    let own = own_fields(entries_of(node), false);
    &&& d is Mapping
    &&& d->Mapping_0@.len() == own.len() + 1
    &&& d->Mapping_0@.take(own.len() as int) == own
    &&& is_text(d->Mapping_0@.last().0, url_name())
    &&& is_text(d->Mapping_0@.last().1, url)
}

/// `out` is what collecting the nested resource `v` at `base` yields: for each
/// path-keyed entry `(k, c)` of `v` in turn, what collecting `c` at `base + k`
/// yields, and then the descriptor of `v` itself.  A value that is not a
/// mapping yields nothing.
pub open spec fn collected(v: Value, base: Seq<char>, out: Seq<Value>) -> bool
    decreases v, entries_of(v).len() + 1,
{
    match v {
        Value::Mapping(h) => {
            &&& out.len() == descendants(v)
            &&& collected_in(v, h@.len() as int, base, out.drop_last())
            &&& is_child_descriptor(out.last(), v, base)
        },
        _ => out.len() == 0,
    }
}

/// `out` is what the path-keyed entries among the first `n` entries of `node`
/// yield, each collected at `base` followed by its own key.
pub open spec fn collected_in(node: Value, n: int, base: Seq<char>, out: Seq<Value>) -> bool
    decreases node, if n < 0 { 0 } else { n as nat },
{
    let es = entries_of(node);
    if n <= 0 || n > es.len() {
        n == 0 && out.len() == 0
    } else {
        &&& out.len() == descendants_in(node, n)
        &&& if is_path_key(es[n - 1].0) {
            let m = out.len() - descendants(es[n - 1].1);
            &&& collected_in(node, n - 1, base, out.take(m))
            &&& collected(es[n - 1].1, base + text_of(es[n - 1].0), out.skip(m))
        } else {
            collected_in(node, n - 1, base, out)
        }
    }
}

/// Appends to `to` the descriptors of the nested resource `resource` at
/// `base_url` and of all resources nested in it, deepest first: for each of
/// its path-keyed entries `(k, c)` in order, those of `c` at `base_url + k`;
/// then one for `resource`, holding its own fields and `url = base_url`.
/// A value that is not a mapping appends nothing.
pub fn collect_child_resources(resource: Value, base_url: &str, to: &mut Vec<Value>)
    ensures
        final(to)@.len() >= old(to)@.len(),
        final(to)@.take(old(to)@.len() as int) == old(to)@,
        collected(resource, base_url@, final(to)@.skip(old(to)@.len() as int)),
    decreases resource,
{
    let ghost node = resource;
    let ghost pre = to@;
    match resource {
        Value::Mapping(h) => {
            let ghost es = h@;
            let ghost hv = h;
            let n: usize = h.len();
            let mut h = h;
            let mut own: Vec<(Value, Value)> = Vec::new();
            let mut i: usize = 0;
            while h.len() > 0
                invariant
                    node == Value::Mapping(hv),
                    node == resource,
                    es == entries_of(node),
                    es == hv@,
                    es.len() == n,
                    i <= es.len(),
                    h@ == es.skip(i as int),
                    own@ == own_fields(es.take(i as int), false),
                    to@.len() >= pre.len(),
                    to@.take(pre.len() as int) == pre,
                    collected_in(node, i as int, base_url@, to@.skip(pre.len() as int)),
                decreases h.len(),
            {
                let ghost before = to@;
                assert(h@.len() == es.len() - i);
                let (k, c) = h.remove(0);
                proof {
                    assert(es.take(i + 1).drop_last() =~= es.take(i as int));
                    assert(h@ =~= es.skip(i + 1));
                    assert(es[i as int] == (k, c));
                }
                if is_path_key_exec(&k) {
                    let mut child_url = String::from_str(base_url);
                    if let Value::String(key) = &k {
                        child_url.append(key.as_str());
                    }
                    proof {
                        assert(decreases_to!(node => hv));
                        assert(decreases_to!(hv => hv@));
                        assert(decreases_to!(hv@ => hv@[i as int]));
                        assert(decreases_to!(hv@[i as int] => hv@[i as int].1));
                        assert(decreases_to!(node => c));
                    }
                    collect_child_resources(c, child_url.as_str(), to);
                    proof {
                        let out = to@.skip(pre.len() as int);
                        let m = out.len() - descendants(c);
                        assert(out.take(m) =~= before.skip(pre.len() as int));
                        assert(out.skip(m) =~= to@.skip(before.len() as int));
                        assert(to@.take(pre.len() as int) =~= pre);
                    }
                } else if !is_named(&k, "url") {
                    own.push((k, c));
                }
                i = i + 1;
            }
            proof {
                assert(es.take(es.len() as int) =~= es);
                assert(i == es.len());
            }
            let ghost mid = to@;
            let url = Value::String(String::from_str(base_url));
            own.push((Value::String(String::from_str("url")), url));
            to.push(Value::Mapping(own));
            proof {
                let out = to@.skip(pre.len() as int);
                assert(to@.take(pre.len() as int) =~= pre);
                assert(out.last() == Value::Mapping(own));
                assert(own@.take(own@.len() - 1) =~= own_fields(es, false));
                assert(is_child_descriptor(out.last(), node, base_url@));
                assert(out.drop_last() =~= mid.skip(pre.len() as int));
                assert(out.len() == descendants(node));
            }
        },
        _ => {
            proof {
                assert(to@.skip(pre.len() as int) =~= Seq::<Value>::empty());
                assert(to@.take(pre.len() as int) =~= pre);
            }
        },
    }
}

/// `d` is the descriptor of the top-level resource `node` at `url`: its own
/// fields in their order, then `url`, then `child_resources`, the sequence of
/// what its path-keyed entries yield, each collected at `url` followed by its
/// own key.
pub open spec fn is_top_descriptor(d: Value, node: Value, url: Seq<char>) -> bool {
    let own = own_fields(entries_of(node), true);
    let f = d->Mapping_0@;
    let k = own.len() as int;
    &&& d is Mapping
    &&& f.len() == own.len() + 2
    &&& f.take(k) == own
    &&& is_text(f[k].0, url_name())
    &&& is_text(f[k].1, url)
    &&& is_text(f[k + 1].0, children_name())
    &&& f[k + 1].1 is Sequence
    &&& collected_in(node, entries_of(node).len() as int, url, f[k + 1].1->Sequence_0@)
}

/// Appends to `to` the descriptor of the top-level resource `resource` at
/// `resource_url`: its own fields, `url = resource_url`, and in
/// `child_resources` the flattened list of all resources nested in it.
/// A value that is not a mapping gets a descriptor with no own fields and an
/// empty `child_resources`.
pub fn append_resource_tree(resource: Value, resource_url: &str, to: &mut Vec<Value>)
    ensures
        final(to)@.len() == old(to)@.len() + 1,
        final(to)@.drop_last() == old(to)@,
        is_top_descriptor(final(to)@.last(), resource, resource_url@),
{
    let ghost node = resource;
    let mut own: Vec<(Value, Value)> = Vec::new();
    let mut children: Vec<Value> = Vec::new();
    match resource {
        Value::Mapping(h) => {
            let ghost es = h@;
            let n: usize = h.len();
            let mut h = h;
            let mut i: usize = 0;
            while h.len() > 0
                invariant
                    node is Mapping,
                    es == entries_of(node),
                    es.len() == n,
                    i <= es.len(),
                    h@ == es.skip(i as int),
                    own@ == own_fields(es.take(i as int), true),
                    collected_in(node, i as int, resource_url@, children@),
                decreases h.len(),
            {
                let ghost before = children@;
                assert(h@.len() == es.len() - i);
                let (k, c) = h.remove(0);
                proof {
                    assert(es.take(i + 1).drop_last() =~= es.take(i as int));
                    assert(h@ =~= es.skip(i + 1));
                    assert(es[i as int] == (k, c));
                }
                if is_path_key_exec(&k) {
                    let mut child_url = String::from_str(resource_url);
                    if let Value::String(key) = &k {
                        child_url.append(key.as_str());
                    }
                    collect_child_resources(c, child_url.as_str(), &mut children);
                    proof {
                        let m = children@.len() - descendants(c);
                        assert(children@.take(m) =~= before);
                        assert(children@.skip(m) =~= children@.skip(before.len() as int));
                    }
                } else if !is_named(&k, "url") && !is_named(&k, "child_resources") {
                    own.push((k, c));
                }
                i = i + 1;
            }
            proof {
                assert(es.take(es.len() as int) =~= es);
            }
        },
        _ => {},
    }
    let ghost fields = own@;
    let ghost kids = children@;
    own.push((Value::String(String::from_str("url")), Value::String(String::from_str(resource_url))));
    own.push((Value::String(String::from_str("child_resources")), Value::Sequence(children)));
    let ghost pre = to@;
    to.push(Value::Mapping(own));
    proof {
        assert(to@.drop_last() =~= pre);
        assert(own@.take(fields.len() as int) =~= fields);
        assert(fields == own_fields(entries_of(node), true));
        assert(collected_in(node, entries_of(node).len() as int, resource_url@, kids));
    }
}

/// The root of a document is not a mapping.
pub enum AmlError {
    MalformedDocument,
}

/// `out` holds, in order, one top-level descriptor for each path-keyed entry
/// `(k, r)` of `ps`: that of `r` at `k`.
pub open spec fn resources_of(ps: Seq<(Value, Value)>, out: Seq<Value>) -> bool {
    &&& out.len() == ps.len()
    &&& forall|j: int| 0 <= j < ps.len() ==> is_top_descriptor(#[trigger] out[j], ps[j].1, text_of(ps[j].0))
}

/// Splits a document: each top-level entry whose key is not a path key is
/// appended to `header_only` unchanged, in order; for each entry whose key is
/// a path key, the descriptor of its resource at that key is appended to
/// `resources`, in order.  A document whose root is not a mapping is refused
/// with `MalformedDocument`, and nothing is appended.
pub fn split_resources(
    full_aml: Value,
    header_only: &mut Vec<(Value, Value)>,
    resources: &mut Vec<Value>,
) -> (r: Result<(), AmlError>)
    ensures
        r is Err <==> !(full_aml is Mapping),
        r is Err ==> final(header_only)@ == old(header_only)@ && final(resources)@ == old(resources)@,
        r is Ok ==> final(header_only)@ == old(header_only)@ + header_fields(entries_of(full_aml)),
        r is Ok ==> final(resources)@.len() >= old(resources)@.len(),
        r is Ok ==> final(resources)@.take(old(resources)@.len() as int) == old(resources)@,
        r is Ok ==> resources_of(
            path_entries(entries_of(full_aml)),
            final(resources)@.skip(old(resources)@.len() as int),
        ),
{
    let ghost pre_h = header_only@;
    let ghost pre_r = resources@;
    match full_aml {
        Value::Mapping(h) => {
            let ghost es = h@;
            let n: usize = h.len();
            let mut h = h;
            let mut i: usize = 0;
            while h.len() > 0
                invariant
                    es.len() == n,
                    i <= es.len(),
                    h@ == es.skip(i as int),
                    header_only@ == pre_h + header_fields(es.take(i as int)),
                    resources@.len() >= pre_r.len(),
                    resources@.take(pre_r.len() as int) == pre_r,
                    resources_of(path_entries(es.take(i as int)), resources@.skip(pre_r.len() as int)),
                decreases h.len(),
            {
                let ghost before = resources@;
                assert(h@.len() == es.len() - i);
                let (k, v) = h.remove(0);
                proof {
                    assert(es.take(i + 1).drop_last() =~= es.take(i as int));
                    assert(h@ =~= es.skip(i + 1));
                    assert(es[i as int] == (k, v));
                }
                if is_path_key_exec(&k) {
                    if let Value::String(key) = &k {
                        append_resource_tree(v, key.as_str(), resources);
                    }
                    proof {
                        let ps = path_entries(es.take(i + 1));
                        let out = resources@.skip(pre_r.len() as int);
                        assert(ps == path_entries(es.take(i as int)).push(es[i as int]));
                        assert(out.drop_last() =~= before.skip(pre_r.len() as int));
                        assert(resources@.take(pre_r.len() as int) =~= pre_r);
                        assert forall|j: int| 0 <= j < ps.len() implies is_top_descriptor(
                            #[trigger] out[j],
                            ps[j].1,
                            text_of(ps[j].0),
                        ) by {
                            if j < ps.len() - 1 {
                                assert(out[j] == before.skip(pre_r.len() as int)[j]);
                            }
                        }
                    }
                } else {
                    header_only.push((k, v));
                    proof {
                        assert(header_only@ =~= pre_h + header_fields(es.take(i + 1)));
                    }
                }
                i = i + 1;
            }
            proof {
                assert(es.take(es.len() as int) =~= es);
            }
            Ok(())
        },
        _ => Err(AmlError::MalformedDocument),
    }
}

} // verus!
