//! Where an object is found, removed from and put back into a forest of
//! objects whose ids are all distinct: the facts behind undoing a removal.
use vstd::prelude::*;
use crate::document::{
    ObjectModel, NestKind, Object, occurs, position_of, parent_model, remove_in_container, remove_nested,
    find_path, at_path, replace_at, path_ok, with_kids, lemma_absent, models, lemma_models,
    doc_find_loc, doc_parent_of, doc_remove, lemma_doc_find_loc,
};

verus! {

/// No id occurs twice in the forest, at any depth.
pub open spec fn unique_ids<P>(objs: Seq<ObjectModel<P>>) -> bool
    decreases objs,
{
    objs.len() > 0 ==> {
        &&& !occurs(objs[0].kids, objs[0].id)
        &&& !occurs(objs.drop_first(), objs[0].id)
        &&& forall|x: Seq<char>| #[trigger] occurs(objs[0].kids, x) ==> !occurs(objs.drop_first(), x)
        &&& unique_ids(objs[0].kids)
        &&& unique_ids(objs.drop_first())
    }
}

/// Objects that hold no children have none in the model.
pub open spec fn leaves_bare<P>(objs: Seq<ObjectModel<P>>) -> bool
    decreases objs,
{
    objs.len() > 0 ==> {
        &&& (objs[0].kind == NestKind::Leaf ==> objs[0].kids.len() == 0)
        &&& leaves_bare(objs[0].kids)
        &&& leaves_bare(objs.drop_first())
    }
}

/// The models of real objects have bare leaves.
pub proof fn lemma_models_bare<P>(s: Seq<Object<P>>)
    ensures
        leaves_bare(models(s)),
    decreases s,
{
    if s.len() > 0 {
        let o = s[0];
        assert(models(s).drop_first() =~= models(s.drop_first()));
        assert(models(s)[0] == o.model());
        lemma_models_bare(s.drop_first());
        match o.nesting {
            crate::document::Nesting::Leaf => {
                assert(o.model().kids =~= Seq::<ObjectModel<P>>::empty());
            },
            crate::document::Nesting::Group(c) => {
                lemma_models_bare(c@);
                assert(o.model().kids == models(c@));
            },
            crate::document::Nesting::ClippingMask(c) => {
                lemma_models_bare(c@);
                assert(o.model().kids == models(c@));
            },
        }
        let m = models(s);
        assert(m.len() > 0);
        assert(leaves_bare(m.drop_first()));
        assert(leaves_bare(m[0].kids));
        assert(m[0].kind == NestKind::Leaf ==> m[0].kids.len() == 0);
    }
}


/// A found path is valid, leads to an object with the sought id, and stays
/// within the depth bound.
pub proof fn lemma_found<P>(objs: Seq<ObjectModel<P>>, id: Seq<char>, d: nat)
    requires
        find_path(objs, id, d) is Some,
    ensures
        path_ok(objs, find_path(objs, id, d)->0),
        at_path(objs, find_path(objs, id, d)->0).id == id,
        occurs(objs, id),
        d + find_path(objs, id, d)->0.len() <= 129,
    decreases 129 - d, objs.len(),
{
    let p = find_path(objs, id, d)->0;
    if objs[0].id == id {
    } else if find_path(objs[0].kids, id, d + 1) is Some {
        lemma_found(objs[0].kids, id, d + 1);
        let p1 = find_path(objs[0].kids, id, d + 1)->0;
        assert(p.drop_first() =~= p1);
    } else {
        lemma_found(objs.drop_first(), id, d);
        let p2 = find_path(objs.drop_first(), id, d)->0;
        lemma_at_path_shift(objs, p2);
    }
}

/// Paths one place further along the forest.
pub proof fn lemma_at_path_shift<P>(objs: Seq<ObjectModel<P>>, p2: Seq<nat>)
    requires
        objs.len() > 0,
        path_ok(objs.drop_first(), p2),
    ensures
        path_ok(objs, p2.update(0, p2[0] + 1)),
        at_path(objs, p2.update(0, p2[0] + 1)) == at_path(objs.drop_first(), p2),
        forall|x: ObjectModel<P>| #[trigger] replace_at(objs, p2.update(0, p2[0] + 1), x)
            == seq![objs[0]] + replace_at(objs.drop_first(), p2, x),
        p2.len() >= 2 ==> p2.update(0, p2[0] + 1).drop_last() == p2.drop_last().update(0, p2[0] + 1),
{
    let q = p2.update(0, p2[0] + 1);
    assert(q.drop_first() =~= p2.drop_first());
    assert forall|x: ObjectModel<P>| #[trigger] replace_at(objs, q, x) == seq![objs[0]] + replace_at(objs.drop_first(), p2, x) by {
        assert(replace_at(objs, q, x) =~= seq![objs[0]] + replace_at(objs.drop_first(), p2, x));
    }
    if p2.len() >= 2 {
        assert(q.drop_last() =~= p2.drop_last().update(0, p2[0] + 1));
    }
}

/// Nothing is found of an id that does not occur.
pub proof fn lemma_absent_found<P>(objs: Seq<ObjectModel<P>>, id: Seq<char>, d: nat)
    requires
        !occurs(objs, id),
    ensures
        find_path(objs, id, d) is None,
        parent_model(objs, id, d) is None,
    decreases 129 - d, objs.len(),
{
    if d <= 128 && objs.len() > 0 {
        lemma_absent_found(objs[0].kids, id, d + 1);
        lemma_absent_found(objs.drop_first(), id, d);
        lemma_absent(objs[0].kids, id);
    }
}

/// The object a valid path leads to occurs in the forest.
pub proof fn lemma_at_path_occurs<P>(objs: Seq<ObjectModel<P>>, q: Seq<nat>)
    requires
        path_ok(objs, q),
    ensures
        occurs(objs, at_path(objs, q).id),
    decreases q.len(), objs.len(),
{
    let x = at_path(objs, q).id;
    if q[0] == 0 {
        if q.len() > 1 {
            lemma_at_path_occurs(objs[0].kids, q.drop_first());
        }
    } else {
        let p2 = q.update(0, (q[0] - 1) as nat);
        assert(p2.update(0, p2[0] + 1) =~= q);
        if q.len() > 1 {
            assert(path_ok(objs.drop_first(), p2)) by {
                assert(p2.drop_first() =~= q.drop_first());
                assert(objs.drop_first()[p2[0] as int] == objs[q[0] as int]);
            }
        } else {
            assert(path_ok(objs.drop_first(), p2));
        }
        lemma_at_path_shift(objs, p2);
        lemma_at_path_occurs(objs.drop_first(), p2);
    }
}

/// A path of one step is the first top-level position of the id.
pub proof fn lemma_found_top<P>(objs: Seq<ObjectModel<P>>, id: Seq<char>, d: nat)
    requires
        find_path(objs, id, d) matches Some(p) && p.len() == 1,
    ensures
        position_of(objs, id) == Some(find_path(objs, id, d)->0[0]),
    decreases objs.len(),
{
    if objs[0].id != id {
        if find_path(objs[0].kids, id, d + 1) is Some {
            let p1 = find_path(objs[0].kids, id, d + 1)->0;
            lemma_found(objs[0].kids, id, d + 1);
            assert((seq![0nat] + p1).len() >= 2);
        } else {
            let p = find_path(objs, id, d)->0;
            assert(find_path(objs.drop_first(), id, d) is Some);
            let p2 = find_path(objs.drop_first(), id, d)->0;
            assert(p == p2.update(0, p2[0] + 1));
            assert(p.len() == 1);
            lemma_found(objs.drop_first(), id, d);
            assert(p2.len() == 1);
            lemma_found_top(objs.drop_first(), id, d);
            assert(position_of(objs.drop_first(), id) == Some(p2[0]));
        }
    }
}


/// Replacing at a valid path: the new object is found there, and a second
/// replacement there overrides the first.
pub proof fn lemma_replace_twice<P>(objs: Seq<ObjectModel<P>>, q: Seq<nat>, a: ObjectModel<P>, b: ObjectModel<P>)
    requires
        path_ok(objs, q),
    ensures
        path_ok(replace_at(objs, q, a), q),
        at_path(replace_at(objs, q, a), q) == a,
        replace_at(replace_at(objs, q, a), q, b) == replace_at(objs, q, b),
    decreases q.len(),
{
    if q.len() > 1 {
        let o = objs[q[0] as int];
        lemma_replace_twice(o.kids, q.drop_first(), a, b);
        assert(replace_at(replace_at(objs, q, a), q, b) =~= replace_at(objs, q, b));
    } else {
        assert(replace_at(replace_at(objs, q, a), q, b) =~= replace_at(objs, q, b));
    }
}

/// Replacing one child of the object at `q` is replacing at `q` extended
/// by the child's index.
pub proof fn lemma_replace_child<P>(objs: Seq<ObjectModel<P>>, q: Seq<nat>, k: nat, m: ObjectModel<P>)
    requires
        path_ok(objs, q),
        k < at_path(objs, q).kids.len(),
    ensures
        replace_at(objs, q, with_kids(at_path(objs, q), at_path(objs, q).kids.update(k as int, m)))
            == replace_at(objs, q.push(k), m),
        path_ok(objs, q.push(k)),
        at_path(objs, q.push(k)) == at_path(objs, q).kids[k as int],
    decreases q.len(),
{
    let qk = q.push(k);
    let o = objs[q[0] as int];
    assert(qk.drop_first() =~= q.drop_first().push(k));
    assert(qk[0] == q[0]);
    assert(qk.len() > 1);
    if q.len() > 1 {
        lemma_replace_child(o.kids, q.drop_first(), k, m);
    } else {
        assert(qk.drop_first() =~= seq![k]);
        assert(at_path(objs, q) == o);
        assert(replace_at(o.kids, seq![k], m) == o.kids.update(k as int, m));
        assert(path_ok(o.kids, seq![k]));
        assert(at_path(o.kids, seq![k]) == o.kids[k as int]);
    }
}


/// The nested object that `find_path` finds is a child of the object one
/// step up its path; in a forest of distinct ids, that container is what
/// `parent_model` reports, removing the id takes exactly that child out of
/// it, and the container is then still found at the same path.
pub proof fn lemma_nested_removal<P>(objs: Seq<ObjectModel<P>>, id: Seq<char>, d: nat)
    requires
        unique_ids(objs),
        leaves_bare(objs),
        find_path(objs, id, d) matches Some(p) && p.len() >= 2,
    ensures
        ({
            let p = find_path(objs, id, d)->0;
            let q = p.drop_last();
            let k = p.last();
            let par = at_path(objs, q);
            let rem = remove_nested(objs, id);
            &&& position_of(objs, id) is None
            &&& path_ok(objs, q)
            &&& par.kind != NestKind::Leaf
            &&& k < par.kids.len()
            &&& parent_model(objs, id, d) == Some((par.id, k))
            &&& rem == (replace_at(objs, q, with_kids(par, par.kids.remove(k as int))), Some(at_path(objs, p)))
            &&& find_path(rem.0, par.id, d) == Some(q)
        }),
    decreases 129 - d, objs.len(),
{
    let p = find_path(objs, id, d)->0;
    let o = objs[0];
    let tail = objs.drop_first();
    lemma_found(objs, id, d);
    if o.id == id {
        assert(false);
    } else if find_path(o.kids, id, d + 1) is Some {
        let p1 = find_path(o.kids, id, d + 1)->0;
        assert(p == seq![0nat] + p1);
        lemma_found(o.kids, id, d + 1);
        assert(occurs(o.kids, id));
        assert(!occurs(tail, id));
        lemma_absent(tail, id);
        assert(o.kind != NestKind::Leaf);
        assert(p.drop_first() =~= p1);
        if p1.len() == 1 {
            let k = p1[0];
            lemma_found_top(o.kids, id, d + 1);
            assert(p.drop_last() =~= seq![0nat]);
            assert(p.last() == k);
            assert(at_path(objs, seq![0nat]) == o);
            assert(at_path(objs, p) == o.kids[k as int]);
            let rem = remove_nested(objs, id);
            assert(remove_in_container(o, id) == (o.kids.remove(k as int), Some(o.kids[k as int])));
            assert(rem.0 == objs.update(0, with_kids(o, o.kids.remove(k as int))));
            assert(rem.0[0].id == o.id);
            assert(find_path(rem.0, o.id, d) == Some(seq![0nat]));
        } else {
            lemma_nested_removal(o.kids, id, d + 1);
            let q1 = p1.drop_last();
            let k = p1.last();
            let par = at_path(o.kids, q1);
            let q = p.drop_last();
            assert(q =~= seq![0nat] + q1);
            assert(q.drop_first() =~= q1);
            assert(p.last() == k);
            assert(at_path(objs, q) == par);
            let x = with_kids(par, par.kids.remove(k as int));
            let rem = remove_nested(objs, id);
            assert(remove_in_container(o, id) == remove_nested(o.kids, id));
            assert(rem.0 == objs.update(0, with_kids(o, replace_at(o.kids, q1, x))));
            assert(replace_at(objs, q, x) == objs.update(0, with_kids(o, replace_at(o.kids, q1, x))));
            lemma_at_path_occurs(o.kids, q1);
            assert(par.id != o.id);
            assert(rem.0[0].kids == replace_at(o.kids, q1, x));
            assert(find_path(rem.0, par.id, d) == Some(seq![0nat] + q1));
        }
    } else {
        let p2 = find_path(tail, id, d)->0;
        assert(p == p2.update(0, p2[0] + 1));
        lemma_found(tail, id, d);
        assert(p2.len() == p.len());
        lemma_nested_removal(tail, id, d);
        let q2 = p2.drop_last();
        let k = p2.last();
        let par = at_path(tail, q2);
        assert(o.id != id);
        assert(!occurs(o.kids, id)) by {
            if occurs(o.kids, id) {
                assert(!occurs(tail, id));
            }
        }
        lemma_absent(o.kids, id);
        lemma_absent_found(o.kids, id, d + 1);
        lemma_at_path_shift(objs, p2);
        lemma_at_path_shift(objs, q2);
        assert(q2[0] == p2[0]);
        let q = p.drop_last();
        assert(q == q2.update(0, q2[0] + 1));
        assert(p.last() == k);
        assert(at_path(objs, q) == par);
        let x = with_kids(par, par.kids.remove(k as int));
        let rem = remove_nested(objs, id);
        assert(remove_in_container(o, id).1 is None);
        assert(rem.0 == seq![o] + remove_nested(tail, id).0);
        assert(replace_at(objs, q, x) == seq![o] + replace_at(tail, q2, x));
        lemma_at_path_occurs(tail, q2);
        assert(par.id != o.id);
        assert(!occurs(o.kids, par.id)) by {
            if occurs(o.kids, par.id) {
                assert(!occurs(tail, par.id));
            }
        }
        lemma_absent_found(o.kids, par.id, d + 1);
        assert(rem.0[0] == o);
        assert(rem.0.drop_first() =~= remove_nested(tail, id).0);
        assert(find_path(rem.0, par.id, d) == Some(q2.update(0, q2[0] + 1)));
    }
}


/// No id occurs twice in the drawing: within a layer or across layers.
pub open spec fn doc_unique<P>(fs: Seq<Seq<ObjectModel<P>>>) -> bool {
    &&& forall|i: int| 0 <= i < fs.len() ==> unique_ids(#[trigger] fs[i])
    &&& forall|i: int, j: int, x: Seq<char>| 0 <= i < j < fs.len() && #[trigger] occurs(fs[i], x) ==> !#[trigger] occurs(fs[j], x)
}

/// Every layer has bare leaves.
pub open spec fn doc_bare<P>(fs: Seq<Seq<ObjectModel<P>>>) -> bool {
    forall|i: int| 0 <= i < fs.len() ==> leaves_bare(#[trigger] fs[i])
}

/// Where `doc_find_loc` finds an object in a drawing of distinct ids,
/// `doc_parent_of` reports its container (or its layer) and index,
/// `doc_remove` takes out exactly that object, and a container is then
/// still found at its old place.
pub proof fn lemma_doc_removal<P>(fs: Seq<Seq<ObjectModel<P>>>, id: Seq<char>, base: nat)
    requires
        doc_unique(fs),
        doc_bare(fs),
        doc_find_loc(fs, id) is Some,
    ensures
        ({
            let (li, p) = doc_find_loc(fs, id)->0;
            let objs = fs[li as int];
            &&& li < fs.len()
            &&& path_ok(objs, p)
            &&& at_path(objs, p).id == id
            &&& p.len() == 1 ==> {
                &&& doc_parent_of(fs, id, base) == Some((None::<Seq<char>>, base + li, p[0]))
                &&& doc_remove(fs, id) == (fs.update(li as int, objs.remove(p[0] as int)), Some(objs[p[0] as int]))
            }
            &&& p.len() >= 2 ==> {
                let q = p.drop_last();
                let k = p.last();
                let par = at_path(objs, q);
                &&& path_ok(objs, q)
                &&& par.kind != NestKind::Leaf
                &&& k < par.kids.len()
                &&& doc_parent_of(fs, id, base) == Some((Some(par.id), base + li, k))
                &&& doc_remove(fs, id) == (fs.update(li as int, replace_at(objs, q, with_kids(par, par.kids.remove(k as int)))),
                    Some(at_path(objs, p)))
                &&& doc_find_loc(doc_remove(fs, id).0, par.id) == Some((li, q))
            }
        }),
    decreases fs.len(),
{
    lemma_doc_find_loc(fs, id);
    let (li, p) = doc_find_loc(fs, id)->0;
    let tail = fs.drop_first();
    if find_path(fs[0], id, 0) is Some {
        lemma_found(fs[0], id, 0);
        if p.len() == 1 {
            lemma_found_top(fs[0], id, 0);
        } else {
            lemma_nested_removal(fs[0], id, 0);
            let q = p.drop_last();
            let par = at_path(fs[0], q);
            let rem = remove_nested(fs[0], id);
            assert(doc_remove(fs, id).0 == fs.update(0, rem.0));
            assert(doc_remove(fs, id).0[0] == rem.0);
        }
    } else {
        assert(doc_unique(tail)) by {
            assert forall|i: int| 0 <= i < tail.len() implies unique_ids(#[trigger] tail[i]) by {
                assert(tail[i] == fs[i + 1]);
            }
            assert forall|i: int, j: int, x: Seq<char>| 0 <= i < j < tail.len() && #[trigger] occurs(tail[i], x)
                implies !#[trigger] occurs(tail[j], x) by {
                assert(tail[i] == fs[i + 1]);
                assert(tail[j] == fs[j + 1]);
            }
        }
        assert(doc_bare(tail)) by {
            assert forall|i: int| 0 <= i < tail.len() implies leaves_bare(#[trigger] tail[i]) by {
                assert(tail[i] == fs[i + 1]);
            }
        }
        lemma_doc_removal(tail, id, base + 1);
        let li2 = (li - 1) as nat;
        assert(doc_find_loc(tail, id) == Some((li2, p)));
        assert(tail[li2 as int] == fs[li as int]);
        let objs = fs[li as int];
        lemma_at_path_occurs(objs, p);
        assert(occurs(fs[li as int], id));
        assert(!occurs(fs[0], id));
        lemma_absent(fs[0], id);
        lemma_absent_found(fs[0], id, 0);
        let rest = doc_remove(tail, id);
        assert(doc_remove(fs, id) == (seq![fs[0]] + rest.0, rest.1));
        if p.len() == 1 {
            assert(seq![fs[0]] + tail.update(li2 as int, objs.remove(p[0] as int)) =~= fs.update(li as int, objs.remove(p[0] as int)));
        } else {
            let q = p.drop_last();
            let k = p.last();
            let par = at_path(objs, q);
            let x = replace_at(objs, q, with_kids(par, par.kids.remove(k as int)));
            assert(seq![fs[0]] + tail.update(li2 as int, x) =~= fs.update(li as int, x));
            lemma_at_path_occurs(objs, q);
            assert(!occurs(fs[0], par.id));
            lemma_absent_found(fs[0], par.id, 0);
            let fs2 = doc_remove(fs, id).0;
            assert(fs2[0] == fs[0]);
            assert(fs2.drop_first() =~= rest.0);
        }
    }
}

} // verus!
