//! Deep merge of two value trees: objects merge recursively per key, and in
//! every other case the overlay wins outright.

use vstd::prelude::*;

use crate::strutil::string_eq_str;
use crate::value::{
    entries_map, keys_unique, lemma_value_model_object, obj_dom, obj_index_of, value_model,
    value_wf, ValueTree, ValueModel,
};

verus! {

/// What a deep merge produces: objects merge per key, the overlay has
/// precedence everywhere else.
pub open spec fn merge_model(base: ValueModel, overlay: ValueModel) -> ValueModel
    decreases overlay,
{
    match (base, overlay) {
        (ValueModel::Object(b), ValueModel::Object(o)) => ValueModel::Object(
            Map::new(
                |k: Seq<char>| b.dom().contains(k) || o.dom().contains(k),
                |k: Seq<char>|
                    if o.dom().contains(k) {
                        if b.dom().contains(k) {
                            merge_model(b[k], o[k])
                        } else {
                            o[k]
                        }
                    } else if b.dom().contains(k) {
                        b[k]
                    } else {
                        ValueModel::Null
                    },
            ),
        ),
        _ => overlay,
    }
}

/// The per-key union behind an object/object merge.
pub open spec fn merge_maps(
    b: Map<Seq<char>, ValueModel>,
    o: Map<Seq<char>, ValueModel>,
) -> Map<Seq<char>, ValueModel> {
    Map::new(
        |k: Seq<char>| b.dom().contains(k) || o.dom().contains(k),
        |k: Seq<char>|
            if o.dom().contains(k) {
                if b.dom().contains(k) {
                    merge_model(b[k], o[k])
                } else {
                    o[k]
                }
            } else if b.dom().contains(k) {
                b[k]
            } else {
                ValueModel::Null
            },
    )
}

/// An object/object merge is the per-key union of the two maps.
pub proof fn lemma_merge_model_object(
    b: Map<Seq<char>, ValueModel>,
    o: Map<Seq<char>, ValueModel>,
)
    ensures
        merge_model(ValueModel::Object(b), ValueModel::Object(o)) == ValueModel::Object(
            merge_maps(b, o),
        ),
{
    assert(merge_model(ValueModel::Object(b), ValueModel::Object(o)) is Object);
    let m1 = merge_model(ValueModel::Object(b), ValueModel::Object(o))->Object_0;
    let m2 = merge_maps(b, o);
    assert forall|k: Seq<char>| #![auto] m1.dom().contains(k) implies m2.dom().contains(k)
        && m1[k] == m2[k] by {}
    assert forall|k: Seq<char>| #![auto] m2.dom().contains(k) implies m1.dom().contains(k) by {}
    assert(m1 =~= m2);
}

/// With unique keys, the index found for a present key is the only one.
pub proof fn lemma_obj_index(entries: Seq<(String, ValueTree)>, k: Seq<char>, i: int)
    requires
        keys_unique(entries),
        0 <= i < entries.len(),
        entries[i].0@ == k,
    ensures
        obj_dom(entries).contains(k),
        obj_index_of(entries, k) == i,
{
    assert(obj_dom(entries).contains(k));
    let j = obj_index_of(entries, k);
    assert(0 <= j < entries.len() && entries[j].0@ == k);
    if i != j {
        if i < j {
            assert(entries[i].0@ != entries[j].0@);
        } else {
            assert(entries[j].0@ != entries[i].0@);
        }
    }
}

/// Replacing the value at an existing key updates the described map at that
/// key alone.
pub proof fn lemma_entries_map_update(entries: Seq<(String, ValueTree)>, i: int, p: (String, ValueTree))
    requires
        keys_unique(entries),
        0 <= i < entries.len(),
        p.0@ == entries[i].0@,
    ensures
        keys_unique(entries.update(i, p)),
        entries_map(entries.update(i, p)) =~= entries_map(entries).insert(
            p.0@,
            value_model(p.1),
        ),
{
    let upd = entries.update(i, p);
    assert forall|a: int, b: int| 0 <= a < b < upd.len() implies upd[a].0@ != upd[b].0@ by {
        assert(entries[a].0@ != entries[b].0@);
    }
    assert forall|k: Seq<char>| obj_dom(upd).contains(k) implies obj_dom(entries).contains(
        k,
    ) by {
        let w = choose|w: int| 0 <= w < upd.len() && upd[w].0@ == k;
        assert(entries[if w == i { i } else { w }].0@ == k);
    }
    assert forall|k: Seq<char>| obj_dom(entries).contains(k) implies obj_dom(upd).contains(
        k,
    ) by {
        let w = choose|w: int| 0 <= w < entries.len() && entries[w].0@ == k;
        assert(upd[if w == i { i } else { w }].0@ == k);
    }
    assert forall|k: Seq<char>| obj_dom(upd).contains(k) implies entries_map(upd)[k]
        == entries_map(entries).insert(p.0@, value_model(p.1))[k] by {
        let w = obj_index_of(upd, k);
        assert(0 <= w < upd.len() && upd[w].0@ == k);
        lemma_obj_index(upd, k, w);
        if k == p.0@ {
            lemma_obj_index(upd, k, i);
            assert(w == i);
        } else {
            assert(w != i);
            assert(entries[w].0@ == k);
            lemma_obj_index(entries, k, w);
        }
    }
}

/// Appending a fresh key adds one binding to the described map.
pub proof fn lemma_entries_map_push(entries: Seq<(String, ValueTree)>, p: (String, ValueTree))
    requires
        keys_unique(entries),
        !obj_dom(entries).contains(p.0@),
    ensures
        keys_unique(entries.push(p)),
        entries_map(entries.push(p)) =~= entries_map(entries).insert(p.0@, value_model(p.1)),
{
    let ext = entries.push(p);
    assert forall|a: int, b: int| 0 <= a < b < ext.len() implies ext[a].0@ != ext[b].0@ by {
        if b < entries.len() {
            assert(entries[a].0@ != entries[b].0@);
        } else {
            assert(ext[b].0@ == p.0@);
            assert(entries[a].0@ == ext[a].0@);
            if ext[a].0@ == p.0@ {
                assert(obj_dom(entries).contains(p.0@));
            }
        }
    }
    assert forall|k: Seq<char>| obj_dom(entries).contains(k) || k == p.0@ implies obj_dom(
        ext,
    ).contains(k) by {
        if k == p.0@ {
            assert(ext[entries.len() as int].0@ == k);
        } else {
            let w = choose|w: int| 0 <= w < entries.len() && entries[w].0@ == k;
            assert(ext[w].0@ == k);
        }
    }
    assert forall|k: Seq<char>| obj_dom(ext).contains(k) implies obj_dom(entries).contains(k) || k
        == p.0@ by {
        let w = choose|w: int| 0 <= w < ext.len() && ext[w].0@ == k;
        if w < entries.len() {
            assert(entries[w].0@ == k);
        }
    }
    assert forall|k: Seq<char>| obj_dom(ext).contains(k) implies entries_map(ext)[k]
        == entries_map(entries).insert(p.0@, value_model(p.1))[k] by {
        let w = obj_index_of(ext, k);
        assert(0 <= w < ext.len() && ext[w].0@ == k);
        lemma_obj_index(ext, k, w);
        if k == p.0@ {
            lemma_obj_index(ext, k, entries.len() as int);
        } else {
            assert(w < entries.len());
            assert(entries[w].0@ == k);
            lemma_obj_index(entries, k, w);
        }
    }
}

/// Find the entry with the given key, if any.
pub(crate) fn obj_find(entries: &Vec<(String, ValueTree)>, key: &str) -> (r: Option<usize>)
    ensures
        match r {
            Some(i) => 0 <= i < entries@.len() && entries@[i as int].0@ == key@,
            None => !obj_dom(entries@).contains(key@),
        },
{
    let mut i: usize = 0;
    while i < entries.len()
        invariant
            i <= entries@.len(),
            forall|j: int| 0 <= j < i ==> entries@[j].0@ != key@,
        decreases entries@.len() - i,
    {
        if string_eq_str(&entries[i].0, key) {
            return Some(i);
        }
        i = i + 1;
    }
    proof {
        if obj_dom(entries@).contains(key@) {
            let w = choose|w: int| 0 <= w < entries@.len() && entries@[w].0@ == key@;
            assert(entries@[w].0@ != key@);
        }
    }
    None
}

/// Recursive merge, consuming both trees.
#[verifier::loop_isolation(false)]
fn merge_val(base: ValueTree, overlay: ValueTree) -> (r: ValueTree)
    requires
        value_wf(base),
        value_wf(overlay),
    ensures
        value_model(r) == merge_model(value_model(base), value_model(overlay)),
        value_wf(r),
    decreases overlay,
{
    let ghost base0 = base;
    let ghost overlay0 = overlay;
    match (base, overlay) {
        (ValueTree::Object(mut be), ValueTree::Object(mut oe)) => {
            let ghost oe0 = oe;
            let ghost b0 = be@;
            let ghost o0 = oe0@;
            let ghost bm = entries_map(b0);
            proof {
                assert(base0 == ValueTree::Object(be));
                assert(overlay0 == ValueTree::Object(oe0));
                lemma_value_model_object(be);
                lemma_value_model_object(oe0);
                assert(decreases_to!(overlay0 => oe0));
                assert(decreases_to!(oe0 => o0));
                assert(decreases_to!(overlay0 => o0));
                assert(o0.take(0) =~= Seq::<(String, ValueTree)>::empty());
                assert forall|k: Seq<char>| !obj_dom(o0.take(0)).contains(k) by {
                    if obj_dom(o0.take(0)).contains(k) {
                        let w = choose|w: int|
                            0 <= w < o0.take(0).len() && o0.take(0)[w].0@ == k;
                    }
                }
                assert(entries_map(be@) =~= merge_maps(bm, entries_map(o0.take(0))));
            }
            let mut i: usize = 0;
            let n = oe.len();
            while i < n
                invariant
                    n == o0.len(),
                    i <= n,
                    oe@ =~= o0.skip(i as int),
                    keys_unique(o0),
                    forall|j: int| 0 <= j < o0.len() ==> value_wf(#[trigger] o0[j].1),
                    keys_unique(be@),
                    forall|j: int| 0 <= j < be@.len() ==> value_wf(#[trigger] be@[j].1),
                    entries_map(be@) == merge_maps(bm, entries_map(o0.take(i as int))),
                    decreases_to!(overlay0 => o0),
                decreases n - i,
            {
                let pair = oe.remove(0);
                proof {
                    assert(o0.skip(i as int)[0] == o0[i as int]);
                    assert(pair == o0[i as int]);
                    assert(oe@ =~= o0.skip(i as int + 1));
                    assert(decreases_to!(o0 => o0[i as int]));
                    assert(decreases_to!(o0[i as int] => o0[i as int].1));
                    assert(decreases_to!(overlay0 => o0[i as int].1));
                }
                let (key, v) = pair;
                let ghost before = be@;
                let ghost km = entries_map(before);
                let ghost pm = entries_map(o0.take(i as int));
                let ghost vm = value_model(v);
                proof {
                    assert(v == o0[i as int].1);
                    assert(key@ == o0[i as int].0@);
                    // the processed prefix cannot already hold the current key
                    if pm.dom().contains(key@) {
                        let w = obj_index_of(o0.take(i as int), key@);
                        assert(0 <= w < i && o0.take(i as int)[w].0@ == key@);
                        assert(o0[w].0@ != o0[i as int].0@);
                    }
                    assert(km == merge_maps(bm, pm));
                    assert(o0.take(i as int + 1) =~= o0.take(i as int).push(o0[i as int]));
                    lemma_entries_map_push(o0.take(i as int), o0[i as int]);
                }
                let ghost pmi = pm.insert(key@, vm);
                proof {
                    assert(entries_map(o0.take(i as int + 1)) =~= pmi);
                }
                match obj_find(&be, key.as_str()) {
                    Some(fi) => {
                        proof {
                            lemma_obj_index(before, key@, fi as int);
                            assert(km.dom().contains(key@));
                            assert(km[key@] == value_model(before[fi as int].1));
                            assert(bm.dom().contains(key@));
                            assert(km[key@] == bm[key@]);
                        }
                        let (k2, old_v) = be.remove(fi);
                        proof {
                            assert(old_v == before[fi as int].1);
                            assert(k2 == before[fi as int].0);
                        }
                        let merged = merge_val(old_v, v);
                        be.insert(fi, (k2, merged));
                        proof {
                            assert(be@ =~= before.update(fi as int, (k2, merged)));
                            lemma_entries_map_update(before, fi as int, (k2, merged));
                            let lhsm = km.insert(key@, merge_model(bm[key@], vm));
                            assert(entries_map(be@) =~= lhsm);
                            let rhsm = merge_maps(bm, pmi);
                            assert forall|k: Seq<char>| #![auto] rhsm.dom().contains(k) implies
                                lhsm.dom().contains(k) && lhsm[k] == rhsm[k] by {
                                if k == key@ {
                                    assert(rhsm[k] == merge_model(bm[k], vm));
                                } else {
                                    assert(pmi.dom().contains(k) == pm.dom().contains(k));
                                    if pm.dom().contains(k) {
                                        assert(pmi[k] == pm[k]);
                                    }
                                    assert(lhsm[k] == km[k]);
                                    assert(km[k] == merge_maps(bm, pm)[k]);
                                }
                            }
                            assert forall|k: Seq<char>| #![auto] lhsm.dom().contains(k) implies
                                rhsm.dom().contains(k) by {}
                            assert(lhsm =~= rhsm);
                            assert(entries_map(be@) == merge_maps(
                                bm,
                                entries_map(o0.take(i as int + 1)),
                            ));
                            assert forall|j: int| 0 <= j < be@.len() implies value_wf(
                                #[trigger] be@[j].1,
                            ) by {
                                if j != fi as int {
                                    assert(be@[j] == before[j]);
                                }
                            }
                        }
                    },
                    None => {
                        be.push((key, v));
                        proof {
                            assert(!km.dom().contains(key@));
                            assert(!bm.dom().contains(key@));
                            lemma_entries_map_push(before, (key, v));
                            let lhsm = km.insert(key@, vm);
                            assert(entries_map(be@) =~= lhsm);
                            let rhsm = merge_maps(bm, pmi);
                            assert forall|k: Seq<char>| #![auto] rhsm.dom().contains(k) implies
                                lhsm.dom().contains(k) && lhsm[k] == rhsm[k] by {
                                if k == key@ {
                                    assert(rhsm[k] == vm);
                                } else {
                                    assert(pmi.dom().contains(k) == pm.dom().contains(k));
                                    if pm.dom().contains(k) {
                                        assert(pmi[k] == pm[k]);
                                    }
                                    assert(lhsm[k] == km[k]);
                                    assert(km[k] == merge_maps(bm, pm)[k]);
                                }
                            }
                            assert forall|k: Seq<char>| #![auto] lhsm.dom().contains(k) implies
                                rhsm.dom().contains(k) by {}
                            assert(lhsm =~= rhsm);
                            assert(entries_map(be@) == merge_maps(
                                bm,
                                entries_map(o0.take(i as int + 1)),
                            ));
                            assert forall|j: int| 0 <= j < be@.len() implies value_wf(
                                #[trigger] be@[j].1,
                            ) by {
                                if j < before.len() {
                                    assert(be@[j] == before[j]);
                                } else {
                                    assert(be@[j] == (key, v));
                                }
                            }
                        }
                    },
                }
                i = i + 1;
            }
            proof {
                assert(o0.take(n as int) =~= o0);
                lemma_value_model_object(be);
                lemma_merge_model_object(bm, entries_map(o0));
                assert(value_model(ValueTree::Object(be)) == merge_model(
                    value_model(base0),
                    value_model(overlay0),
                ));
                assert(value_wf(ValueTree::Object(be)));
            }
            ValueTree::Object(be)
        },
        (b, o) => {
            proof {
                assert(base0 == b && overlay0 == o);
                assert(!(b is Object && o is Object));
                if !(b is Object) {
                    assert(!(value_model(b) is Object));
                } else {
                    assert(!(value_model(o) is Object));
                }
                assert(merge_model(value_model(b), value_model(o)) == value_model(o));
            }
            o
        },
    }
}

/// What writing `value` at a dotted path produces: intermediate objects are
/// created where missing, and a non-object intermediate is replaced by a
/// fresh object.
pub open spec fn insert_path_model(
    cur: ValueModel,
    path: Seq<Seq<char>>,
    value: ValueModel,
) -> ValueModel
    recommends
        path.len() >= 1,
    decreases path.len(),
{
    let seg = path[0];
    let fields = match cur {
        ValueModel::Object(f) => f,
        _ => Map::<Seq<char>, ValueModel>::empty(),
    };
    if path.len() <= 1 {
        ValueModel::Object(fields.insert(seg, value))
    } else {
        let child = if cur is Object && fields.dom().contains(seg) {
            fields[seg]
        } else {
            ValueModel::Object(Map::<Seq<char>, ValueModel>::empty())
        };
        ValueModel::Object(fields.insert(seg, insert_path_model(child, path.skip(1), value)))
    }
}

/// Whether a dotted path resolves to a non-null value.
pub open spec fn has_path_model(m: ValueModel, path: Seq<Seq<char>>) -> bool
    decreases path.len(),
{
    if path.len() == 0 {
        !(m is Null)
    } else {
        match m {
            ValueModel::Object(f) => f.dom().contains(path[0]) && has_path_model(
                f[path[0]],
                path.skip(1),
            ),
            _ => false,
        }
    }
}

/// The scalar found by walking a dotted path, if the walk ends at one.
pub open spec fn leaf_at(m: ValueModel, path: Seq<Seq<char>>) -> Option<ValueModel>
    decreases path.len(),
{
    if path.len() == 0 {
        if m is Object {
            Option::None
        } else {
            Option::Some(m)
        }
    } else {
        match m {
            ValueModel::Object(f) => if f.dom().contains(path[0]) {
                leaf_at(f[path[0]], path.skip(1))
            } else {
                Option::None
            },
            _ => Option::None,
        }
    }
}

/// A tree leaves a dotted path untouched when every node along it is an
/// object and some segment is missing.
pub open spec fn absent_at(m: ValueModel, path: Seq<Seq<char>>) -> bool
    decreases path.len(),
{
    if path.len() == 0 {
        false
    } else {
        match m {
            ValueModel::Object(f) => !f.dom().contains(path[0]) || absent_at(
                f[path[0]],
                path.skip(1),
            ),
            _ => false,
        }
    }
}

/// Insert a nested value into a value tree at a dotted path, creating
/// missing intermediate objects and replacing non-object intermediates.
pub fn insert_path(root: &mut ValueTree, path: &Vec<String>, value: ValueTree)
    requires
        value_wf(*old(root)),
        value_wf(value),
        path@.len() >= 1,
    ensures
        final(root)@ == insert_path_model(old(root)@, path.deep_view(), value@),
        value_wf(*final(root)),
{
    let mut tmp = ValueTree::Null;
    core::mem::swap(root, &mut tmp);
    let mut inserted = insert_rec(tmp, path, 0, value);
    core::mem::swap(root, &mut inserted);
    proof {
        assert(path.deep_view().skip(0) =~= path.deep_view());
    }
}

/// Recursive insertion from segment `i` on, consuming the current node.
fn insert_rec(cur: ValueTree, path: &Vec<String>, i: usize, value: ValueTree) -> (r: ValueTree)
    requires
        value_wf(cur),
        value_wf(value),
        i < path@.len(),
    ensures
        value_model(r) == insert_path_model(
            value_model(cur),
            path.deep_view().skip(i as int),
            value_model(value),
        ),
        value_wf(r),
    decreases path@.len() - i,
{
    let ghost cur0 = cur;
    let ghost rest = path.deep_view().skip(i as int);
    let ghost segm = path.deep_view()[i as int];
    let mut entries: Vec<(String, ValueTree)> = match cur {
        ValueTree::Object(e) => e,
        _ => Vec::new(),
    };
    let ghost fields = match value_model(cur0) {
        ValueModel::Object(f) => f,
        _ => Map::<Seq<char>, ValueModel>::empty(),
    };
    proof {
        assert(rest[0] == segm);
        assert(rest.skip(1) =~= path.deep_view().skip(i as int + 1));
        if cur0 is Object {
            assert(cur0 == ValueTree::Object(entries));
            lemma_value_model_object(entries);
            assert(fields == entries_map(entries@));
        } else {
            assert(entries@ =~= Seq::<(String, ValueTree)>::empty());
            assert forall|k: Seq<char>| !obj_dom(entries@).contains(k) by {
                if obj_dom(entries@).contains(k) {
                    let w = choose|w: int|
                        0 <= w < entries@.len() && entries@[w].0@ == k;
                }
            }
            assert(entries_map(entries@) =~= Map::<Seq<char>, ValueModel>::empty());
            assert(!(value_model(cur0) is Object));
        }
    }
    let seg = &path[i];
    let n = path.len();
    let last = i + 1 == n;
    if last {
        match obj_find(&entries, seg.as_str()) {
            Some(fi) => {
                proof {
                    lemma_obj_index(entries@, segm, fi as int);
                }
                let ghost before = entries@;
                let (k2, _old) = entries.remove(fi);
                entries.insert(fi, (k2, value));
                proof {
                    assert(entries@ =~= before.update(fi as int, (k2, value)));
                    lemma_entries_map_update(before, fi as int, (k2, value));
                    assert forall|j: int| 0 <= j < entries@.len() implies value_wf(
                        #[trigger] entries@[j].1,
                    ) by {
                        if j != fi as int {
                            assert(entries@[j] == before[j]);
                        }
                    }
                }
            },
            None => {
                let ghost before = entries@;
                let pair = (seg.clone(), value);
                let ghost pairg = pair;
                entries.push(pair);
                proof {
                    lemma_entries_map_push(before, pairg);
                    assert forall|j: int| 0 <= j < entries@.len() implies value_wf(
                        #[trigger] entries@[j].1,
                    ) by {
                        if j < before.len() {
                            assert(entries@[j] == before[j]);
                        }
                    }
                }
            },
        }
        proof {
            lemma_value_model_object(entries);
            assert(entries_map(entries@) =~= fields.insert(segm, value_model(value)));
            assert(value_model(ValueTree::Object(entries)) == insert_path_model(
                value_model(cur0),
                rest,
                value_model(value),
            ));
        }
        ValueTree::Object(entries)
    } else {
        match obj_find(&entries, seg.as_str()) {
            Some(fi) => {
                proof {
                    lemma_obj_index(entries@, segm, fi as int);
                }
                let ghost before = entries@;
                let (k2, child) = entries.remove(fi);
                proof {
                    assert(child == before[fi as int].1);
                    assert(value_model(child) == fields[segm]);
                }
                let new_child = insert_rec(child, path, i + 1, value);
                entries.insert(fi, (k2, new_child));
                proof {
                    assert(entries@ =~= before.update(fi as int, (k2, new_child)));
                    lemma_entries_map_update(before, fi as int, (k2, new_child));
                    assert forall|j: int| 0 <= j < entries@.len() implies value_wf(
                        #[trigger] entries@[j].1,
                    ) by {
                        if j != fi as int {
                            assert(entries@[j] == before[j]);
                        }
                    }
                }
            },
            None => {
                let ghost before = entries@;
                let empty_entries: Vec<(String, ValueTree)> = Vec::new();
                let ghost emptyg = empty_entries;
                let new_child = insert_rec(ValueTree::Object(empty_entries), path, i + 1, value);
                let pair = (seg.clone(), new_child);
                let ghost pairg = pair;
                entries.push(pair);
                proof {
                    lemma_value_model_object(emptyg);
                    assert forall|k: Seq<char>| !obj_dom(emptyg@).contains(k) by {
                        if obj_dom(emptyg@).contains(k) {
                            let w = choose|w: int| 0 <= w < emptyg@.len() && emptyg@[w].0@ == k;
                        }
                    }
                    assert(entries_map(emptyg@) =~= Map::<Seq<char>, ValueModel>::empty());
                    lemma_entries_map_push(before, pairg);
                    assert forall|j: int| 0 <= j < entries@.len() implies value_wf(
                        #[trigger] entries@[j].1,
                    ) by {
                        if j < before.len() {
                            assert(entries@[j] == before[j]);
                        }
                    }
                }
            },
        }
        proof {
            lemma_value_model_object(entries);
            assert(entries_map(entries@) =~= fields.insert(
                segm,
                insert_path_model(
                    if cur0 is Object && fields.dom().contains(segm) {
                        fields[segm]
                    } else {
                        ValueModel::Object(Map::<Seq<char>, ValueModel>::empty())
                    },
                    rest.skip(1),
                    value_model(value),
                ),
            ));
            assert(value_model(ValueTree::Object(entries)) == insert_path_model(
                value_model(cur0),
                rest,
                value_model(value),
            ));
        }
        ValueTree::Object(entries)
    }
}

/// Merging an overlay twice is the same as merging it once.
pub proof fn lemma_merge_self(m: ValueModel)
    ensures
        merge_model(m, m) == m,
    decreases m,
{
    match m {
        ValueModel::Object(f) => {
            lemma_merge_model_object(f, f);
            assert forall|k: Seq<char>| #![auto] f.dom().contains(k) implies merge_maps(f, f)[k]
                == f[k] by {
                lemma_merge_self(f[k]);
            }
            assert(merge_maps(f, f) =~= f);
        },
        _ => {},
    }
}

/// Merging is idempotent under repetition: replaying the same overlay does
/// not change the merged result.
pub proof fn lemma_merge_idempotent(a: ValueModel, b: ValueModel)
    ensures
        merge_model(merge_model(a, b), b) == merge_model(a, b),
    decreases b,
{
    if a is Object && b is Object {
        let am = a->Object_0;
        let bm = b->Object_0;
        lemma_merge_model_object(am, bm);
        let m1 = merge_maps(am, bm);
        lemma_merge_model_object(m1, bm);
        assert forall|k: Seq<char>| #![auto] m1.dom().contains(k) || bm.dom().contains(k) implies
            merge_maps(m1, bm)[k] == m1[k] by {
            if bm.dom().contains(k) {
                if am.dom().contains(k) {
                    lemma_merge_idempotent(am[k], bm[k]);
                } else {
                    lemma_merge_self(bm[k]);
                }
            }
        }
        assert(merge_maps(m1, bm) =~= m1);
    } else {
        if b is Object {
            lemma_merge_self(b);
        }
    }
}

/// A path that a tree never reaches ends in no leaf.
pub proof fn lemma_absent_leaf_none(m: ValueModel, path: Seq<Seq<char>>)
    requires
        absent_at(m, path),
    ensures
        leaf_at(m, path) is None,
    decreases path.len(),
{
    let f = m->Object_0;
    if f.dom().contains(path[0]) {
        lemma_absent_leaf_none(f[path[0]], path.skip(1));
    }
}

/// The merge is overlay-preferring: every leaf path present in the overlay
/// survives the merge unchanged.
pub proof fn lemma_merge_overlay_leaf(a: ValueModel, b: ValueModel, path: Seq<Seq<char>>)
    requires
        leaf_at(b, path) is Some,
    ensures
        leaf_at(merge_model(a, b), path) == leaf_at(b, path),
    decreases path.len(),
{
    if path.len() == 0 {
        assert(!(b is Object));
    } else {
        assert(b is Object);
        let bm = b->Object_0;
        assert(bm.dom().contains(path[0]));
        if a is Object {
            let am = a->Object_0;
            lemma_merge_model_object(am, bm);
            if am.dom().contains(path[0]) {
                lemma_merge_overlay_leaf(am[path[0]], bm[path[0]], path.skip(1));
            }
        }
    }
}

/// A leaf path the overlay leaves untouched keeps its base value.
pub proof fn lemma_merge_absent_leaf(a: ValueModel, b: ValueModel, path: Seq<Seq<char>>)
    requires
        absent_at(b, path),
    ensures
        leaf_at(merge_model(a, b), path) == leaf_at(a, path),
    decreases path.len(),
{
    assert(path.len() >= 1);
    assert(b is Object);
    let bm = b->Object_0;
    if a is Object {
        let am = a->Object_0;
        lemma_merge_model_object(am, bm);
        if bm.dom().contains(path[0]) {
            if am.dom().contains(path[0]) {
                lemma_merge_absent_leaf(am[path[0]], bm[path[0]], path.skip(1));
            } else {
                lemma_absent_leaf_none(bm[path[0]], path.skip(1));
            }
        }
    } else {
        lemma_absent_leaf_none(b, path);
    }
}

/// Two dotted paths diverge when they disagree on some shared segment.
pub open spec fn paths_diverge(p: Seq<Seq<char>>, q: Seq<Seq<char>>) -> bool {
    exists|i: int| 0 <= i < p.len() && i < q.len() && p[i] != q[i]
}

/// Writing at a diverging path leaves the leaf at `p` untouched.
pub proof fn lemma_insert_preserves_diverging(
    m: ValueModel,
    q: Seq<Seq<char>>,
    value: ValueModel,
    p: Seq<Seq<char>>,
)
    requires
        q.len() >= 1,
        paths_diverge(p, q),
    ensures
        leaf_at(insert_path_model(m, q, value), p) == leaf_at(m, p),
    decreases q.len(),
{
    let w = choose|i: int| 0 <= i < p.len() && i < q.len() && p[i] != q[i];
    let fields = match m {
        ValueModel::Object(f) => f,
        _ => Map::<Seq<char>, ValueModel>::empty(),
    };
    let result = insert_path_model(m, q, value);
    if p[0] != q[0] {
        if m is Object {
            assert(result->Object_0[p[0]] == fields[p[0]]) by {
                if fields.dom().contains(p[0]) {
                }
            }
        }
    } else {
        assert(q.len() >= 2) by {
            if q.len() == 1 {
                assert(p[w] != q[w]);
            }
        }
        assert(0 <= w - 1 < p.skip(1).len() && w - 1 < q.skip(1).len() && p.skip(1)[w - 1]
            != q.skip(1)[w - 1]) by {
            assert(p[w] != q[w]);
        }
        let child = if m is Object && fields.dom().contains(q[0]) {
            fields[q[0]]
        } else {
            ValueModel::Object(Map::<Seq<char>, ValueModel>::empty())
        };
        lemma_insert_preserves_diverging(child, q.skip(1), value, p.skip(1));
        if m is Object && fields.dom().contains(q[0]) {
            assert(leaf_at(result, p) == leaf_at(m, p));
        } else {
            assert(p.skip(1).len() >= 1);
            assert(leaf_at(child, p.skip(1)) is None);
            assert(leaf_at(result, p) is None);
            assert(leaf_at(m, p) is None);
        }
    }
}

/// Writing a non-null value at a path makes the path resolve: `insert_path`
/// followed by `has_path` on the same path always answers true.
pub proof fn lemma_insert_then_has(m: ValueModel, path: Seq<Seq<char>>, value: ValueModel)
    requires
        path.len() >= 1,
        !(value is Null),
    ensures
        has_path_model(insert_path_model(m, path, value), path),
    decreases path.len(),
{
    let fields = match m {
        ValueModel::Object(f) => f,
        _ => Map::<Seq<char>, ValueModel>::empty(),
    };
    if path.len() == 1 {
        assert(has_path_model(value, path.skip(1)));
    } else {
        let child = if m is Object && fields.dom().contains(path[0]) {
            fields[path[0]]
        } else {
            ValueModel::Object(Map::<Seq<char>, ValueModel>::empty())
        };
        lemma_insert_then_has(child, path.skip(1), value);
    }
}

/// Deep merge `overlay` into `base`.
///
/// Objects are merged recursively; in every other case the overlay value
/// overwrites the base value.
pub fn merge(base: &mut ValueTree, overlay: ValueTree)
    requires
        value_wf(*old(base)),
        value_wf(overlay),
    ensures
        final(base)@ == merge_model(old(base)@, overlay@),
        value_wf(*final(base)),
{
    let mut tmp = ValueTree::Null;
    core::mem::swap(base, &mut tmp);
    let mut merged = merge_val(tmp, overlay);
    core::mem::swap(base, &mut merged);
}

} // verus!
