//! The editing commands that the undo history records.
use vstd::prelude::*;
use crate::document::{Document, Layer, Object, ObjectModel, Nesting, NestKind, forests, models, lemma_models, doc_remove, doc_parent_of, doc_find_loc, clone_of, layer_clone_of, replace_at, at_path, with_kids, lemma_doc_find_loc, lemma_replace_same, lemma_models_insert, lemma_forests_update};
use crate::history::{Command, Named};
use crate::document::{doc_find, metas};
use crate::relocation::{doc_unique, doc_bare, lemma_doc_removal, lemma_models_bare, lemma_replace_twice, lemma_replace_child};
use crate::ordering::{apply_id_order, reordered, texts, Keyed};

verus! {

/// Adds an object to the active layer; undo removes it by id.
pub struct AddObjectCommand<P> {
    pub object: Option<Object<P>>,
    pub object_id: String,
}

impl<P> AddObjectCommand<P> {
    pub fn new(obj: Object<P>) -> (c: Self)
        ensures
            c.object == Some(obj),
            c.object_id@ == obj.id@,
    {
        let id = obj.id.clone();
        AddObjectCommand { object: Some(obj), object_id: id }
    }
}

impl<P> Named for AddObjectCommand<P> {
    open spec fn spec_name(&self) -> Seq<char> {
        "Add Object"@
    }

    fn name(&self) -> (r: &str) {
        "Add Object"
    }
}

impl<P: Clone> Command<Document<P>> for AddObjectCommand<P> {
    open spec fn executes(&self, before: Document<P>, after: Document<P>) -> bool {
        &&& after.active_layer_idx == before.active_layer_idx
        &&& after.symbols == before.symbols
        &&& (before.wf() && self.object is Some) ==> ({
            let a = before.active_layer_idx as int;
            let fs = forests(before.layers@);
            let gs = forests(after.layers@);
            &&& gs.len() == fs.len()
            &&& forall|k: int| 0 <= k < fs.len() && k != a ==> gs[k] == fs[k]
            &&& gs[a].len() == fs[a].len() + 1
            &&& gs[a].take(fs[a].len() as int) == fs[a]
            &&& clone_of(self.object->0.model(), gs[a].last())
        })
        &&& !(before.wf() && self.object is Some) ==> forests(after.layers@) == forests(before.layers@)
    }

    open spec fn undoes(&self, before: Document<P>, after: Document<P>) -> bool {
        &&& after.active_layer_idx == before.active_layer_idx
        &&& after.symbols == before.symbols
        &&& forests(after.layers@) == doc_remove(forests(before.layers@), self.object_id@).0
    }

    fn execute(&self, doc: &mut Document<P>)
    {
        if let Some(obj) = &self.object {
            if doc.active_layer_idx < doc.layers.len() {
                let copy = obj.duplicate();
                doc.add_object(copy);
                assert(forests(doc.layers@)[doc.active_layer_idx as int].take(
                    forests(old(doc).layers@)[doc.active_layer_idx as int].len() as int)
                    =~= forests(old(doc).layers@)[doc.active_layer_idx as int]);
            }
        }
    }

    fn undo(&self, doc: &mut Document<P>)
    {
        doc.remove_object(self.object_id.as_str());
    }
}

/// Removes an object; undo puts it back into its parent group (or layer)
/// at its old index.
pub struct RemoveObjectCommand<P> {
    pub object: Option<Object<P>>,
    pub parent: Option<String>,
    pub layer_idx: usize,
    pub position: usize,
}

impl<P> RemoveObjectCommand<P> {
    pub fn new(obj: Object<P>, layer_idx: usize, position: usize) -> (c: Self)
        ensures
            c.object == Some(obj),
            c.parent is None,
            c.layer_idx == layer_idx,
            c.position == position,
    {
        RemoveObjectCommand { object: Some(obj), parent: None, layer_idx, position }
    }

    pub fn new_nested(obj: Object<P>, parent: String, layer_idx: usize, position: usize) -> (c: Self)
        ensures
            c.object == Some(obj),
            c.parent == Some(parent),
            c.layer_idx == layer_idx,
            c.position == position,
    {
        RemoveObjectCommand { object: Some(obj), parent: Some(parent), layer_idx, position }
    }

    /// Capture the location of `obj` in `doc` (see `Document::parent_of`);
    /// nested children go back into their parent group on undo.
    pub fn located(obj: Object<P>, doc: &Document<P>) -> (c: Self)
        ensures
            located_at(*doc, obj, c),
    {
        let loc = doc.parent_of(obj.id.as_str());
        match loc {
            Some((Some(pid), li, pos)) => Self::new_nested(obj, pid, li, pos),
            Some((None, li, pos)) => Self::new(obj, li, pos),
            None => Self::new(obj, 0, 0),
        }
    }
}

impl<P> Named for RemoveObjectCommand<P> {
    open spec fn spec_name(&self) -> Seq<char> {
        "Remove Object"@
    }

    fn name(&self) -> (r: &str) {
        "Remove Object"
    }
}

fn insert_clamped<T>(v: &mut Vec<T>, pos: usize, x: T)
    ensures
        final(v)@ == old(v)@.insert(if pos < old(v)@.len() { pos as int } else { old(v)@.len() as int }, x),
{
    let p = if pos < v.len() { pos } else { v.len() };
    v.insert(p, x);
}

impl<P: Clone> Command<Document<P>> for RemoveObjectCommand<P> {
    open spec fn executes(&self, before: Document<P>, after: Document<P>) -> bool {
        &&& after.active_layer_idx == before.active_layer_idx
        &&& after.symbols == before.symbols
        &&& same_frame(before, after)
        &&& self.object matches Some(o) ==> forests(after.layers@) == doc_remove(forests(before.layers@), o.id@).0
        &&& self.object is None ==> forests(after.layers@) == forests(before.layers@)
    }

    open spec fn undoes(&self, before: Document<P>, after: Document<P>) -> bool {
        &&& after.active_layer_idx == before.active_layer_idx
        &&& after.symbols == before.symbols
        &&& after.layers@.len() == before.layers@.len()
        &&& same_frame(before, after)
        &&& reinserted(forests(before.layers@), *self, forests(after.layers@))
    }

    fn execute(&self, doc: &mut Document<P>)
    {
        if let Some(obj) = &self.object {
            doc.remove_object(obj.id.as_str());
        }
    }

    fn undo(&self, doc: &mut Document<P>)
    {
        let ghost fs = forests(doc.layers@);
        let ghost mut placed: Option<ObjectModel<P>> = None;
        if let Some(obj) = &self.object {
            if let Some(pid) = &self.parent {
                proof { lemma_doc_find_loc(fs, pid@); }
                let found = doc.find_object_mut(pid.as_str());
                match found {
                    Some(parent) => {
                        let ghost pm = (*parent).model();
                        match &mut parent.nesting {
                            Nesting::Group(children) => {
                                let d = obj.duplicate();
                                let ghost old_kids = children@;
                                proof {
                                    placed = Some(d.model());
                                    let len = children@.len();
                                    lemma_models(children@);
                                    lemma_models_insert(children@, if self.position < len { self.position as int } else { len as int }, d);
                                }
                                insert_clamped(children, self.position, d);
                                proof {
                                    assert(pm.kids == models(old_kids));
                                    assert(clone_of(obj.model(), placed->0));
                                    let loc = doc_find_loc(fs, pid@)->0;
                                    let len = pm.kids.len();
                                    let at = if self.position < len { self.position as int } else { len as int };
                                    assert(pm == at_path(fs[loc.0 as int], loc.1));
                                    assert(parent_slot(fs, *self) == Some(loc));
                                    assert((*parent).model() == with_kids(pm, pm.kids.insert(at, placed->0)));
                                }
                                return;
                            },
                            Nesting::ClippingMask(children) => {
                                let d = obj.duplicate();
                                let ghost old_kids = children@;
                                proof {
                                    placed = Some(d.model());
                                    let len = children@.len();
                                    lemma_models(children@);
                                    lemma_models_insert(children@, if self.position < len { self.position as int } else { len as int }, d);
                                }
                                insert_clamped(children, self.position, d);
                                proof {
                                    assert(pm.kids == models(old_kids));
                                    assert(clone_of(obj.model(), placed->0));
                                    let loc = doc_find_loc(fs, pid@)->0;
                                    let len = pm.kids.len();
                                    let at = if self.position < len { self.position as int } else { len as int };
                                    assert(pm == at_path(fs[loc.0 as int], loc.1));
                                    assert(parent_slot(fs, *self) == Some(loc));
                                    assert((*parent).model() == with_kids(pm, pm.kids.insert(at, placed->0)));
                                }
                                return;
                            },
                            Nesting::Leaf => {},
                        }
                        proof {
                            let loc = doc_find_loc(fs, pid@)->0;
                            lemma_replace_same(fs[loc.0 as int], loc.1);
                            assert(forests(doc.layers@) =~= fs);
                        }
                    },
                    None => {},
                }
            }
            assert(forests(doc.layers@) == fs);
            assert(parent_slot(fs, *self) is None);
            if self.layer_idx < doc.layers.len() {
                let copy = obj.duplicate();
                let ghost objs = doc.layers@[self.layer_idx as int].objects@;
                let ghost at = if self.position < objs.len() { self.position as int } else { objs.len() as int };
                proof {
                    placed = Some(copy.model());
                    lemma_models(objs);
                    lemma_models_insert(objs, at, copy);
                    lemma_forests_update::<P>();
                }
                let ghost ls0 = doc.layers@;
                insert_clamped(&mut doc.layers[self.layer_idx].objects, self.position, copy);
                assert(metas(doc.layers@) =~= metas(ls0));
                proof {
                    assert(clone_of(obj.model(), placed->0));
                    assert(fs[self.layer_idx as int] == models(objs));
                    assert(forests(doc.layers@) == fs.update(self.layer_idx as int, fs[self.layer_idx as int].insert(at, placed->0)));
                }
            }
        }
    }
}

/// The document around its objects is unchanged: its name, canvas size
/// and the layers besides their objects.
pub open spec fn same_frame<P>(before: Document<P>, after: Document<P>) -> bool {
    &&& after.name == before.name
    &&& after.width_bits == before.width_bits
    &&& after.height_bits == before.height_bits
    &&& metas(after.layers@) == metas(before.layers@)
}

/// The container that the undo of a removal puts the object back into:
/// the group or clipping mask with the recorded parent id, where there is one.
pub open spec fn parent_slot<P>(fs: Seq<Seq<ObjectModel<P>>>, c: RemoveObjectCommand<P>) -> Option<(nat, Seq<nat>)> {
    match c.parent {
        Some(pid) => match doc_find_loc(fs, pid@) {
            Some(loc) => if at_path(fs[loc.0 as int], loc.1).kind != NestKind::Leaf { Some(loc) } else { None },
            None => None,
        },
        None => None,
    }
}

/// The undo of a removal puts a copy of the removed object back: into the
/// group or clipping mask with the recorded parent id at the recorded
/// index (clamped to its children), or, when there is no such container,
/// into the recorded layer at that index; otherwise nothing changes.
pub open spec fn reinserted<P: Clone>(fs: Seq<Seq<ObjectModel<P>>>, c: RemoveObjectCommand<P>, after: Seq<Seq<ObjectModel<P>>>) -> bool {
    match c.object {
        None => after == fs,
        Some(o) => match parent_slot(fs, c) {
            Some(loc) => {
                let pm = at_path(fs[loc.0 as int], loc.1);
                let at = if (c.position as nat) < pm.kids.len() { c.position as int } else { pm.kids.len() as int };
                exists|m: ObjectModel<P>| #[trigger] clone_of(o.model(), m)
                    && after == replaced_at_loc(fs, loc, with_kids(pm, pm.kids.insert(at, m)))
            },
            None => if (c.layer_idx as nat) < fs.len() {
                let objs = fs[c.layer_idx as int];
                let at = if (c.position as nat) < objs.len() { c.position as int } else { objs.len() as int };
                exists|m: ObjectModel<P>| #[trigger] clone_of(o.model(), m)
                    && after == fs.update(c.layer_idx as int, objs.insert(at, m))
            } else {
                after == fs
            },
        },
    }
}

/// Replaces a whole object (panel edits); undo puts the old one back.
pub struct ObjectCommand<P> {
    pub object_id: String,
    pub old_obj: Object<P>,
    pub new_obj: Object<P>,
}

impl<P> Named for ObjectCommand<P> {
    open spec fn spec_name(&self) -> Seq<char> {
        "Edit Object"@
    }

    fn name(&self) -> (r: &str) {
        "Edit Object"
    }
}

/// The forests with the object at location `loc` (layer, index path)
/// replaced by `m`.
pub open spec fn replaced_at_loc<P>(fs: Seq<Seq<ObjectModel<P>>>, loc: (nat, Seq<nat>), m: ObjectModel<P>) -> Seq<Seq<ObjectModel<P>>> {
    fs.update(loc.0 as int, replace_at(fs[loc.0 as int], loc.1, m))
}

impl<P: Clone> ObjectCommand<P> {
    /// Put a copy of `replacement` where the object with this command's id
    /// is found.
    fn put(&self, doc: &mut Document<P>, replacement: &Object<P>)
        ensures
            final(doc).active_layer_idx == old(doc).active_layer_idx,
            final(doc).symbols == old(doc).symbols,
            final(doc).layers@.len() == old(doc).layers@.len(),
            match doc_find_loc(forests(old(doc).layers@), self.object_id@) {
                Some(loc) => exists|m: ObjectModel<P>| #[trigger] clone_of(replacement.model(), m)
                    && forests(final(doc).layers@) == replaced_at_loc(forests(old(doc).layers@), loc, m),
                None => forests(final(doc).layers@) == forests(old(doc).layers@),
            },
    {
        let ghost mut dm: Option<ObjectModel<P>> = None;
        match doc.find_object_mut(self.object_id.as_str()) {
            Some(obj) => {
                let d = replacement.duplicate();
                proof {
                    dm = Some(d.model());
                }
                *obj = d;
            },
            None => {},
        }
        proof {
            if let Some(m) = dm {
                assert(clone_of(replacement.model(), m));
            }
        }
    }
}

impl<P: Clone> Command<Document<P>> for ObjectCommand<P> {
    open spec fn executes(&self, before: Document<P>, after: Document<P>) -> bool {
        &&& after.active_layer_idx == before.active_layer_idx
        &&& after.symbols == before.symbols
        &&& after.layers@.len() == before.layers@.len()
        &&& match doc_find_loc(forests(before.layers@), self.object_id@) {
            Some(loc) => exists|m: ObjectModel<P>| #[trigger] clone_of(self.new_obj.model(), m)
                && forests(after.layers@) == replaced_at_loc(forests(before.layers@), loc, m),
            None => forests(after.layers@) == forests(before.layers@),
        }
    }

    open spec fn undoes(&self, before: Document<P>, after: Document<P>) -> bool {
        &&& after.active_layer_idx == before.active_layer_idx
        &&& after.symbols == before.symbols
        &&& after.layers@.len() == before.layers@.len()
        &&& match doc_find_loc(forests(before.layers@), self.object_id@) {
            Some(loc) => exists|m: ObjectModel<P>| #[trigger] clone_of(self.old_obj.model(), m)
                && forests(after.layers@) == replaced_at_loc(forests(before.layers@), loc, m),
            None => forests(after.layers@) == forests(before.layers@),
        }
    }

    fn execute(&self, doc: &mut Document<P>)
    {
        self.put(doc, &self.new_obj);
    }

    fn undo(&self, doc: &mut Document<P>)
    {
        self.put(doc, &self.old_obj);
    }
}

/// `min(idx, len - 1)` (0 for no layers).
pub open spec fn clamped_active(idx: nat, len: nat) -> nat {
    if len == 0 { 0 } else if idx < len { idx } else { (len - 1) as nat }
}

fn clamp_active<P>(doc: &mut Document<P>, idx: usize)
    ensures
        final(doc).active_layer_idx == clamped_active(idx as nat, old(doc).layers@.len()),
        final(doc).layers == old(doc).layers,
        final(doc).symbols == old(doc).symbols,
{
    let last = if doc.layers.len() == 0 { 0 } else { doc.layers.len() - 1 };
    doc.active_layer_idx = if idx < last { idx } else { last };
}

/// Index of the first layer with the given id.
pub open spec fn layer_position<P>(ls: Seq<Layer<P>>, id: Seq<char>) -> Option<nat>
    decreases ls.len(),
{
    if ls.len() == 0 {
        None
    } else if ls[0].id@ == id {
        Some(0)
    } else {
        match layer_position(ls.drop_first(), id) {
            Some(p) => Some(p + 1),
            None => None,
        }
    }
}

fn find_layer<P>(ls: &Vec<Layer<P>>, id: &String) -> (r: Option<usize>)
    ensures
        layer_position(ls@, id@) == (match r { Some(p) => Some(p as nat), None => None }),
        r matches Some(p) ==> p < ls@.len() && ls@[p as int].id@ == id@,
{
    let n = ls.len();
    assert(ls@.skip(0) =~= ls@);
    let mut i: usize = 0;
    while i < n
        invariant
            n == ls@.len(),
            i <= n,
            layer_position(ls@, id@) == (match layer_position(ls@.skip(i as int), id@) {
                Some(p) => Some((p + i) as nat),
                None => None::<nat>,
            }),
        decreases n - i,
    {
        assert(ls@.skip(i as int).drop_first() =~= ls@.skip(i + 1));
        if ls[i].id == *id {
            return Some(i);
        }
        i += 1;
    }
    None
}

/// Creates (or duplicates) a layer; undo removes it and restores the
/// previously active layer.
pub struct AddLayerCommand<P> {
    pub layer: Layer<P>,
    pub index: usize,
    pub prev_active: usize,
}

impl<P> Named for AddLayerCommand<P> {
    open spec fn spec_name(&self) -> Seq<char> {
        "Add Layer"@
    }

    fn name(&self) -> (r: &str) {
        "Add Layer"
    }
}

impl<P: Clone> Command<Document<P>> for AddLayerCommand<P> {
    open spec fn executes(&self, before: Document<P>, after: Document<P>) -> bool {
        &&& after.symbols == before.symbols
        &&& ({
            let ls = before.layers@;
            let without = match layer_position(ls, self.layer.id@) {
                Some(p) => ls.remove(p as int),
                None => ls,
            };
            let pos = if (self.index as nat) < ls.len() { self.index as nat } else { ls.len() };
            let pos2 = if pos < without.len() { pos } else { without.len() };
            &&& after.layers@.len() == without.len() + 1
            &&& after.layers@.take(pos2 as int) == without.take(pos2 as int)
            &&& after.layers@.skip((pos2 + 1) as int) == without.skip(pos2 as int)
            &&& layer_clone_of(self.layer, after.layers@[pos2 as int])
            &&& after.active_layer_idx == pos2
        })
    }

    open spec fn undoes(&self, before: Document<P>, after: Document<P>) -> bool {
        &&& after.symbols == before.symbols
        &&& after.layers@ == (match layer_position(before.layers@, self.layer.id@) {
            Some(p) => before.layers@.remove(p as int),
            None => before.layers@,
        })
        &&& after.active_layer_idx == clamped_active(self.prev_active as nat, after.layers@.len())
    }

    fn execute(&self, doc: &mut Document<P>)
    {
        let mut pos = if self.index < doc.layers.len() { self.index } else { doc.layers.len() };
        if let Some(existing) = find_layer(&doc.layers, &self.layer.id) {
            doc.layers.remove(existing);
        }
        if pos > doc.layers.len() {
            pos = doc.layers.len();
        }
        let ghost without = doc.layers@;
        let copy = self.layer.duplicate();
        doc.layers.insert(pos, copy);
        clamp_active(doc, pos);
        assert(doc.layers@.take(pos as int) =~= without.take(pos as int));
        assert(doc.layers@.skip((pos + 1) as int) =~= without.skip(pos as int));
    }

    fn undo(&self, doc: &mut Document<P>)
    {
        if let Some(pos) = find_layer(&doc.layers, &self.layer.id) {
            doc.layers.remove(pos);
        }
        clamp_active(doc, self.prev_active);
    }
}

proof fn lemma_layer_position_none<P>(ls: Seq<Layer<P>>, id: Seq<char>)
    requires
        layer_position(ls, id) is None,
    ensures
        forall|i: int| 0 <= i < ls.len() ==> (#[trigger] ls[i]).id@ != id,
    decreases ls.len(),
{
    if ls.len() > 0 {
        lemma_layer_position_none(ls.drop_first(), id);
        assert forall|i: int| 0 <= i < ls.len() implies (#[trigger] ls[i]).id@ != id by {
            if i > 0 {
                assert(ls[i] == ls.drop_first()[i - 1]);
            }
        }
    }
}

proof fn lemma_layer_position_first<P>(ls: Seq<Layer<P>>, id: Seq<char>, p: int)
    requires
        0 <= p < ls.len(),
        ls[p].id@ == id,
        forall|i: int| 0 <= i < p ==> (#[trigger] ls[i]).id@ != id,
    ensures
        layer_position(ls, id) == Some(p as nat),
    decreases p,
{
    if p > 0 {
        lemma_layer_position_first(ls.drop_first(), id, p - 1);
    }
}

/// Adding a layer whose id the document does not have, with the active
/// layer noted as the one to return to, and then undoing it restores the
/// document's layers and active layer exactly.
pub proof fn law_add_layer_undo_restores<P: Clone>(c: AddLayerCommand<P>, d0: Document<P>, d1: Document<P>, d2: Document<P>)
    requires
        c.executes(d0, d1),
        c.undoes(d1, d2),
        layer_position(d0.layers@, c.layer.id@) is None,
        c.prev_active == d0.active_layer_idx,
        d0.wf(),
    ensures
        d2.layers@ == d0.layers@,
        d2.active_layer_idx == d0.active_layer_idx,
        d2.symbols == d0.symbols,
{
    let ls = d0.layers@;
    let pos = if (c.index as nat) < ls.len() { c.index as nat } else { ls.len() };
    lemma_layer_position_none(ls, c.layer.id@);
    assert forall|i: int| 0 <= i < pos implies (#[trigger] d1.layers@[i]).id@ != c.layer.id@ by {
        assert(d1.layers@[i] == d1.layers@.take(pos as int)[i]);
        assert(ls.take(pos as int)[i] == ls[i]);
    }
    lemma_layer_position_first(d1.layers@, c.layer.id@, pos as int);
    assert(d1.layers@.remove(pos as int) =~= ls) by {
        assert forall|i: int| 0 <= i < ls.len() implies d1.layers@.remove(pos as int)[i] == ls[i] by {
            if i < pos {
                assert(d1.layers@[i] == d1.layers@.take(pos as int)[i]);
                assert(ls.take(pos as int)[i] == ls[i]);
            } else {
                assert(d1.layers@[i + 1] == d1.layers@.skip((pos + 1) as int)[i - pos]);
                assert(ls.skip(pos as int)[i - pos] == ls[i]);
            }
        }
    }
}

/// Deleting the layer at index `index` (its id occurring nowhere else) and
/// then undoing puts a copy of the same layer back at that index, with
/// every other layer as before.
pub proof fn law_remove_layer_undo_reinserts<P: Clone>(c: RemoveLayerCommand<P>, d0: Document<P>, d1: Document<P>, d2: Document<P>)
    requires
        c.executes(d0, d1),
        c.undoes(d1, d2),
        (c.index as int) < d0.layers@.len(),
        d0.layers@[c.index as int].id@ == c.layer.id@,
        forall|i: int| 0 <= i < d0.layers@.len() && i != c.index ==> (#[trigger] d0.layers@[i]).id@ != c.layer.id@,
    ensures
        d2.layers@.len() == d0.layers@.len(),
        forall|i: int| 0 <= i < d0.layers@.len() && i != c.index ==> d2.layers@[i] == d0.layers@[i],
        layer_clone_of(c.layer, d2.layers@[c.index as int]),
        d2.symbols == d0.symbols,
{
    let ls = d0.layers@;
    let k = c.index as int;
    lemma_layer_position_first(ls, c.layer.id@, k);
    let mid = ls.remove(k);
    assert(d1.layers@ == mid);
    assert forall|i: int| 0 <= i < mid.len() implies (#[trigger] mid[i]).id@ != c.layer.id@ by {
        if i < k {
            assert(mid[i] == ls[i]);
        } else {
            assert(mid[i] == ls[i + 1]);
        }
    }
    assert(layer_position(mid, c.layer.id@) is None) by {
        if layer_position(mid, c.layer.id@) is Some {
            lemma_layer_position_some(mid, c.layer.id@);
        }
    }
    assert forall|i: int| 0 <= i < ls.len() && i != k implies d2.layers@[i] == ls[i] by {
        if i < k {
            assert(d2.layers@[i] == d2.layers@.take(k)[i]);
            assert(mid.take(k)[i] == mid[i]);
        } else {
            assert(d2.layers@[i] == d2.layers@.skip(k + 1)[i - k - 1]);
            assert(mid.skip(k)[i - k - 1] == mid[i - 1]);
        }
    }
}

proof fn lemma_layer_position_some<P>(ls: Seq<Layer<P>>, id: Seq<char>)
    requires
        layer_position(ls, id) is Some,
    ensures
        ({
            let p = layer_position(ls, id)->0;
            p < ls.len() && ls[p as int].id@ == id
        }),
    decreases ls.len(),
{
    if ls.len() > 0 && ls[0].id@ != id {
        lemma_layer_position_some(ls.drop_first(), id);
    }
}

/// Deletes a layer; undo puts it back at its old index.
pub struct RemoveLayerCommand<P> {
    pub layer: Layer<P>,
    pub index: usize,
}

impl<P> Named for RemoveLayerCommand<P> {
    open spec fn spec_name(&self) -> Seq<char> {
        "Delete Layer"@
    }

    fn name(&self) -> (r: &str) {
        "Delete Layer"
    }
}

impl<P: Clone> Command<Document<P>> for RemoveLayerCommand<P> {
    open spec fn executes(&self, before: Document<P>, after: Document<P>) -> bool {
        &&& after.symbols == before.symbols
        &&& after.layers@ == (match layer_position(before.layers@, self.layer.id@) {
            Some(p) => before.layers@.remove(p as int),
            None => before.layers@,
        })
        &&& after.active_layer_idx == clamped_active(before.active_layer_idx as nat, after.layers@.len())
    }

    open spec fn undoes(&self, before: Document<P>, after: Document<P>) -> bool {
        &&& after.symbols == before.symbols
        &&& ({
            let ls = before.layers@;
            let pos = if (self.index as nat) < ls.len() { self.index as nat } else { ls.len() };
            &&& layer_position(ls, self.layer.id@) is Some ==> after.layers@ == ls
            &&& layer_position(ls, self.layer.id@) is None ==> after.layers@.len() == ls.len() + 1
                && after.layers@.take(pos as int) == ls.take(pos as int)
                && after.layers@.skip((pos + 1) as int) == ls.skip(pos as int)
                && layer_clone_of(self.layer, after.layers@[pos as int])
            &&& after.active_layer_idx == clamped_active(pos, after.layers@.len())
        })
    }

    fn execute(&self, doc: &mut Document<P>)
    {
        if let Some(pos) = find_layer(&doc.layers, &self.layer.id) {
            doc.layers.remove(pos);
        }
        let a = doc.active_layer_idx;
        clamp_active(doc, a);
    }

    fn undo(&self, doc: &mut Document<P>)
    {
        let pos = if self.index < doc.layers.len() { self.index } else { doc.layers.len() };
        let ghost ls = doc.layers@;
        if find_layer(&doc.layers, &self.layer.id).is_none() {
            let copy = self.layer.duplicate();
            doc.layers.insert(pos, copy);
            assert(doc.layers@.take(pos as int) =~= ls.take(pos as int));
            assert(doc.layers@.skip((pos + 1) as int) =~= ls.skip(pos as int));
        }
        clamp_active(doc, pos);
    }
}

/// Layer z-order change; undo applies the old order.
pub struct ReorderLayersCommand {
    pub old_order: Vec<String>,
    pub new_order: Vec<String>,
}

impl Named for ReorderLayersCommand {
    open spec fn spec_name(&self) -> Seq<char> {
        "Reorder Layers"@
    }

    fn name(&self) -> (r: &str) {
        "Reorder Layers"
    }
}

impl<P> Command<Document<P>> for ReorderLayersCommand {
    open spec fn executes(&self, before: Document<P>, after: Document<P>) -> bool {
        &&& after.symbols == before.symbols
        &&& after.active_layer_idx == before.active_layer_idx
        &&& self.new_order@.len() + before.layers@.len() <= usize::MAX
            ==> reordered(before.layers@, texts(self.new_order@), after.layers@)
    }

    open spec fn undoes(&self, before: Document<P>, after: Document<P>) -> bool {
        &&& after.symbols == before.symbols
        &&& after.active_layer_idx == before.active_layer_idx
        &&& self.old_order@.len() + before.layers@.len() <= usize::MAX
            ==> reordered(before.layers@, texts(self.old_order@), after.layers@)
    }

    fn execute(&self, doc: &mut Document<P>)
    {
        if self.new_order.len() <= usize::MAX - doc.layers.len() {
            apply_id_order(&mut doc.layers, self.new_order.as_slice());
        }
    }

    fn undo(&self, doc: &mut Document<P>)
    {
        if self.old_order.len() <= usize::MAX - doc.layers.len() {
            apply_id_order(&mut doc.layers, self.old_order.as_slice());
        }
    }
}


/// Object z-order change within one layer; undo applies the old order.
pub struct ReorderObjectsCommand {
    pub layer_id: String,
    pub old_order: Vec<String>,
    pub new_order: Vec<String>,
}

impl Named for ReorderObjectsCommand {
    open spec fn spec_name(&self) -> Seq<char> {
        "Reorder Objects"@
    }

    fn name(&self) -> (r: &str) {
        "Reorder Objects"
    }
}

/// The layers with the objects of layer `li` re-ordered by `order`.
pub open spec fn objects_reordered<P>(before: Seq<Layer<P>>, li: Option<nat>, order: Seq<String>, after: Seq<Layer<P>>) -> bool {
    match li {
        None => after == before,
        Some(i) => {
            &&& after.len() == before.len()
            &&& forall|k: int| 0 <= k < before.len() && k != i ==> after[k] == before[k]
            &&& after[i as int].id == before[i as int].id
            &&& after[i as int].name == before[i as int].name
            &&& (order.len() + before[i as int].objects@.len() <= usize::MAX ==>
                reordered(before[i as int].objects@, texts(order), after[i as int].objects@))
        },
    }
}

fn reorder_layer_objects<P>(doc: &mut Document<P>, layer_id: &String, order: &Vec<String>)
    ensures
        final(doc).symbols == old(doc).symbols,
        final(doc).active_layer_idx == old(doc).active_layer_idx,
        objects_reordered(old(doc).layers@, layer_position(old(doc).layers@, layer_id@), order@, final(doc).layers@),
{
    if let Some(i) = find_layer(&doc.layers, layer_id) {
        if order.len() <= usize::MAX - doc.layers[i].objects.len() {
            apply_id_order(&mut doc.layers[i].objects, order.as_slice());
        }
    }
}

impl<P> Command<Document<P>> for ReorderObjectsCommand {
    open spec fn executes(&self, before: Document<P>, after: Document<P>) -> bool {
        &&& after.symbols == before.symbols
        &&& after.active_layer_idx == before.active_layer_idx
        &&& objects_reordered(before.layers@, layer_position(before.layers@, self.layer_id@), self.new_order@, after.layers@)
    }

    open spec fn undoes(&self, before: Document<P>, after: Document<P>) -> bool {
        &&& after.symbols == before.symbols
        &&& after.active_layer_idx == before.active_layer_idx
        &&& objects_reordered(before.layers@, layer_position(before.layers@, self.layer_id@), self.old_order@, after.layers@)
    }

    fn execute(&self, doc: &mut Document<P>)
    {
        reorder_layer_objects(doc, &self.layer_id, &self.new_order);
    }

    fn undo(&self, doc: &mut Document<P>)
    {
        reorder_layer_objects(doc, &self.layer_id, &self.old_order);
    }
}

/// Whole-layer edit; undo puts the old layer back.
pub struct LayerCommand<P> {
    pub layer_id: String,
    pub old_layer: Layer<P>,
    pub new_layer: Layer<P>,
}

impl<P> Named for LayerCommand<P> {
    open spec fn spec_name(&self) -> Seq<char> {
        "Edit Layer"@
    }

    fn name(&self) -> (r: &str) {
        "Edit Layer"
    }
}

/// The layers with the first layer carrying `id` replaced by a copy of `l`.
pub open spec fn layer_replaced<P: Clone>(before: Seq<Layer<P>>, id: Seq<char>, l: Layer<P>, after: Seq<Layer<P>>) -> bool {
    match layer_position(before, id) {
        None => after == before,
        Some(i) => {
            &&& after.len() == before.len()
            &&& forall|k: int| 0 <= k < before.len() && k != i ==> after[k] == before[k]
            &&& layer_clone_of(l, after[i as int])
        },
    }
}

fn replace_layer<P: Clone>(doc: &mut Document<P>, layer_id: &String, l: &Layer<P>)
    ensures
        final(doc).symbols == old(doc).symbols,
        final(doc).active_layer_idx == old(doc).active_layer_idx,
        layer_replaced(old(doc).layers@, layer_id@, *l, final(doc).layers@),
{
    if let Some(i) = find_layer(&doc.layers, layer_id) {
        let copy = l.duplicate();
        doc.layers.set(i, copy);
    }
}

impl<P: Clone> Command<Document<P>> for LayerCommand<P> {
    open spec fn executes(&self, before: Document<P>, after: Document<P>) -> bool {
        &&& after.symbols == before.symbols
        &&& after.active_layer_idx == before.active_layer_idx
        &&& layer_replaced(before.layers@, self.layer_id@, self.new_layer, after.layers@)
    }

    open spec fn undoes(&self, before: Document<P>, after: Document<P>) -> bool {
        &&& after.symbols == before.symbols
        &&& after.active_layer_idx == before.active_layer_idx
        &&& layer_replaced(before.layers@, self.layer_id@, self.old_layer, after.layers@)
    }

    fn execute(&self, doc: &mut Document<P>)
    {
        replace_layer(doc, &self.layer_id, &self.new_layer);
    }

    fn undo(&self, doc: &mut Document<P>)
    {
        replace_layer(doc, &self.layer_id, &self.old_layer);
    }
}

/// Several commands recorded as one step: executed in order, undone in
/// reverse order.
pub struct BatchCommand<C> {
    pub name: String,
    pub commands: Vec<C>,
}

impl<C> BatchCommand<C> {
    pub fn new(name: &str, commands: Vec<C>) -> (b: Self)
        ensures
            b.name@ == name@,
            b.commands == commands,
    {
        BatchCommand { name: name.to_owned(), commands }
    }
}

impl<C> Named for BatchCommand<C> {
    open spec fn spec_name(&self) -> Seq<char> {
        self.name@
    }

    fn name(&self) -> (r: &str) {
        self.name.as_str()
    }
}

/// Executing the commands in order leads from `before` to `after`.
pub open spec fn runs<D, C: Command<D>>(cmds: Seq<C>, before: D, after: D) -> bool
    decreases cmds.len(),
{
    if cmds.len() == 0 {
        after == before
    } else {
        exists|mid: D| runs(cmds.drop_last(), before, mid) && #[trigger] cmds.last().executes(mid, after)
    }
}

/// Undoing the commands, the last one first, leads from `before` to
/// `after`.
pub open spec fn unruns<D, C: Command<D>>(cmds: Seq<C>, before: D, after: D) -> bool
    decreases cmds.len(),
{
    if cmds.len() == 0 {
        after == before
    } else {
        exists|mid: D| unruns(cmds.drop_first(), before, mid) && #[trigger] cmds[0].undoes(mid, after)
    }
}

impl<D, C: Command<D>> Command<D> for BatchCommand<C> {
    open spec fn executes(&self, before: D, after: D) -> bool {
        runs(self.commands@, before, after)
    }

    open spec fn undoes(&self, before: D, after: D) -> bool {
        unruns(self.commands@, before, after)
    }

    fn execute(&self, doc: &mut D) {
        let ghost d0 = *doc;
        let n = self.commands.len();
        let mut i: usize = 0;
        assert(self.commands@.take(0) =~= Seq::<C>::empty());
        while i < n
            invariant
                i <= n,
                n == self.commands@.len(),
                runs(self.commands@.take(i as int), d0, *doc),
            decreases n - i,
        {
            let ghost mid = *doc;
            self.commands[i].execute(doc);
            proof {
                let cs = self.commands@.take(i + 1);
                assert(cs.drop_last() =~= self.commands@.take(i as int));
                assert(cs.last() == self.commands@[i as int]);
                assert(cs.last().executes(mid, *doc));
            }
            i += 1;
        }
        assert(self.commands@.take(n as int) =~= self.commands@);
    }

    fn undo(&self, doc: &mut D) {
        let ghost d0 = *doc;
        let n = self.commands.len();
        let mut i = n;
        assert(self.commands@.skip(n as int) =~= Seq::<C>::empty());
        while i > 0
            invariant
                i <= n,
                n == self.commands@.len(),
                unruns(self.commands@.skip(i as int), d0, *doc),
            decreases i,
        {
            i -= 1;
            let ghost mid = *doc;
            self.commands[i].undo(doc);
            proof {
                let cs = self.commands@.skip(i as int);
                assert(cs.drop_first() =~= self.commands@.skip(i + 1));
                assert(cs[0] == self.commands@[i as int]);
                assert(cs[0].undoes(mid, *doc));
            }
        }
        assert(self.commands@.skip(0) =~= self.commands@);
    }
}

/// Replaces the path elements of a path object; undo restores the old ones.
pub struct ModifyPathCommand<E> {
    pub object_id: String,
    pub old_elements: Vec<E>,
    pub new_elements: Vec<E>,
}

impl<E> ModifyPathCommand<E> {
    pub fn new(object_id: &str, old_elements: Vec<E>, new_elements: Vec<E>) -> (c: Self)
        ensures
            c.object_id@ == object_id@,
            c.old_elements == old_elements,
            c.new_elements == new_elements,
    {
        ModifyPathCommand { object_id: object_id.to_owned(), old_elements, new_elements }
    }
}

impl<E> Named for ModifyPathCommand<E> {
    open spec fn spec_name(&self) -> Seq<char> {
        "Edit Path Nodes"@
    }

    fn name(&self) -> (r: &str) {
        "Edit Path Nodes"
    }
}

/// Replaces the text and typography of a text object; undo restores them.
pub struct ModifyTextCommand<S> {
    pub object_id: String,
    pub old_text: String,
    pub old_style: S,
    pub new_text: String,
    pub new_style: S,
}

impl<S> ModifyTextCommand<S> {
    pub fn new(object_id: &str, old_text: String, old_style: S, new_text: String, new_style: S) -> (c: Self)
        ensures
            c.object_id@ == object_id@,
            c.old_text == old_text,
            c.old_style == old_style,
            c.new_text == new_text,
            c.new_style == new_style,
    {
        ModifyTextCommand { object_id: object_id.to_owned(), old_text, old_style, new_text, new_style }
    }
}

impl<S> Named for ModifyTextCommand<S> {
    open spec fn spec_name(&self) -> Seq<char> {
        "Change Typography"@
    }

    fn name(&self) -> (r: &str) {
        "Change Typography"
    }
}


/// Where `RemoveObjectCommand::located` records an object of `doc`.
pub open spec fn located_at<P>(doc: Document<P>, obj: Object<P>, c: RemoveObjectCommand<P>) -> bool {
    &&& c.object == Some(obj)
    &&& match doc_parent_of(forests(doc.layers@), obj.id@, 0) {
        Some((Some(pid), li, pos)) => c.parent matches Some(p) && p@ == pid && c.layer_idx == li && c.position == pos,
        Some((None, li, pos)) => c.parent is None && c.layer_idx == li && c.position == pos,
        None => c.parent is None && c.layer_idx == 0 && c.position == 0,
    }
}

/// Removing an object of a drawing whose ids are all distinct, with the
/// command that `RemoveObjectCommand::located` makes for it, and undoing
/// the removal gives back the drawing with a copy of the object in its old
/// place: a nested child back in its parent group or clipping mask at its
/// old index, a top-level object back in its layer at its old index; the
/// name, canvas size, active layer, symbols and the layers' ids, names,
/// flags and opacities are as before. With exact copies this is the
/// drawing itself.
pub proof fn law_located_remove_undo_restores<P: Clone>(
    before: Document<P>,
    obj: Object<P>,
    c: RemoveObjectCommand<P>,
    mid: Document<P>,
    after: Document<P>,
)
    requires
        doc_unique(forests(before.layers@)),
        doc_find(forests(before.layers@), obj.id@) == Some(obj.model()),
        located_at(before, obj, c),
        c.executes(before, mid),
        c.undoes(mid, after),
    ensures
        after.active_layer_idx == before.active_layer_idx,
        after.symbols == before.symbols,
        same_frame(before, after),
        doc_find_loc(forests(before.layers@), obj.id@) matches Some(loc)
            && exists|m: ObjectModel<P>| #[trigger] clone_of(obj.model(), m)
                && forests(after.layers@) == replaced_at_loc(forests(before.layers@), loc, m),
        (forall|m: ObjectModel<P>| #[trigger] clone_of(obj.model(), m) ==> m == obj.model())
            ==> forests(after.layers@) == forests(before.layers@),
{
    let fs = forests(before.layers@);
    let id = obj.id@;
    assert(doc_bare(fs)) by {
        assert forall|i: int| 0 <= i < fs.len() implies crate::relocation::leaves_bare(#[trigger] fs[i]) by {
            lemma_models_bare(before.layers@[i].objects@);
        }
    }
    lemma_doc_find_loc(fs, id);
    lemma_doc_removal(fs, id, 0);
    let (li, p) = doc_find_loc(fs, id)->0;
    let objs = fs[li as int];
    assert(at_path(objs, p) == obj.model());
    let fs1 = forests(mid.layers@);
    let fs2 = forests(after.layers@);
    assert(fs1 == doc_remove(fs, id).0);
    if p.len() == 1 {
        let k = p[0];
        assert(c.parent is None && c.layer_idx == li && c.position == k);
        assert(parent_slot(fs1, c) is None);
        assert(fs1[li as int] == objs.remove(k as int));
        let m = choose|m: ObjectModel<P>| #[trigger] clone_of(obj.model(), m)
            && fs2 == fs1.update(li as int, fs1[li as int].insert(k as int, m));
        assert(objs.remove(k as int).insert(k as int, m) =~= objs.update(k as int, m));
        assert(replace_at(objs, p, m) == objs.update(k as int, m));
        assert(fs2 =~= replaced_at_loc(fs, (li, p), m));
        if forall|m2: ObjectModel<P>| #[trigger] clone_of(obj.model(), m2) ==> m2 == obj.model() {
            assert(m == obj.model());
            assert(objs.update(k as int, m) =~= objs);
            assert(fs2 =~= fs);
        }
    } else {
        let q = p.drop_last();
        let k = p.last();
        let par = at_path(objs, q);
        let x = with_kids(par, par.kids.remove(k as int));
        assert(c.parent matches Some(pp) && pp@ == par.id && c.layer_idx == li && c.position == k);
        assert(fs1 == fs.update(li as int, replace_at(objs, q, x)));
        assert(fs1[li as int] == replace_at(objs, q, x));
        lemma_replace_twice(objs, q, x, x);
        assert(at_path(fs1[li as int], q) == x);
        assert(parent_slot(fs1, c) == Some((li, q)));
        let pm = x;
        let m = choose|m: ObjectModel<P>| #[trigger] clone_of(obj.model(), m)
            && fs2 == replaced_at_loc(fs1, (li, q), with_kids(pm, pm.kids.insert(k as int, m)));
        let y = with_kids(par, par.kids.update(k as int, m));
        assert(with_kids(pm, pm.kids.insert(k as int, m)) == y) by {
            assert(par.kids.remove(k as int).insert(k as int, m) =~= par.kids.update(k as int, m));
        }
        lemma_replace_twice(objs, q, x, y);
        lemma_replace_child(objs, q, k, m);
        assert(q.push(k) =~= p);
        assert(fs2 =~= replaced_at_loc(fs, (li, p), m));
        if forall|m2: ObjectModel<P>| #[trigger] clone_of(obj.model(), m2) ==> m2 == obj.model() {
            assert(m == obj.model());
            lemma_replace_same(objs, p);
            assert(fs2 =~= fs);
        }
    }
}


/// What an object is, as far as the path and typography edits need to
/// know: a path with its drawing commands, a text with its typography, or
/// anything else.
pub enum Shape<E, S, O> {
    Path(Vec<E>),
    Text { text: String, style: S },
    Other(O),
}

/// `d` holds a copy of the path commands `els`.
pub open spec fn path_copy<E: Clone, S, O>(d: Shape<E, S, O>, els: Seq<E>) -> bool {
    d matches Shape::Path(v) && v@.len() == els.len()
        && forall|i: int| 0 <= i < els.len() ==> cloned::<E>(els[i], #[trigger] v@[i])
}

/// `d` is a text with a copy of `text` and `style`.
pub open spec fn text_copy<E, S: Clone, O>(d: Shape<E, S, O>, text: Seq<char>, style: S) -> bool {
    d matches Shape::Text { text: t, style: st } && t@ == text && cloned::<S>(style, st)
}

/// Nothing changes but the objects' payloads.
pub open spec fn only_payloads<P>(before: Document<P>, after: Document<P>) -> bool {
    &&& after.active_layer_idx == before.active_layer_idx
    &&& after.symbols == before.symbols
    &&& after.layers@.len() == before.layers@.len()
    &&& same_frame(before, after)
}

/// The path object with this id gets a copy of the commands `els`; an
/// object of another kind, or no object, is left as it is.
pub open spec fn path_set<E: Clone, S, O>(before: Document<Shape<E, S, O>>, after: Document<Shape<E, S, O>>, id: Seq<char>, els: Seq<E>) -> bool {
    &&& only_payloads(before, after)
    &&& match doc_find_loc(forests(before.layers@), id) {
        Some(loc) => {
            let m = at_path(forests(before.layers@)[loc.0 as int], loc.1);
            if m.data is Path {
                exists|p: Shape<E, S, O>| #[trigger] path_copy(p, els)
                    && forests(after.layers@) == replaced_at_loc(forests(before.layers@), loc, ObjectModel { data: p, ..m })
            } else {
                forests(after.layers@) == forests(before.layers@)
            }
        },
        None => forests(after.layers@) == forests(before.layers@),
    }
}

/// The object with this id becomes a text with a copy of `text` and
/// `style`, whatever it was; with no such object nothing changes.
pub open spec fn text_set<E, S: Clone, O>(before: Document<Shape<E, S, O>>, after: Document<Shape<E, S, O>>, id: Seq<char>, text: Seq<char>, style: S) -> bool {
    &&& only_payloads(before, after)
    &&& match doc_find_loc(forests(before.layers@), id) {
        Some(loc) => {
            let m = at_path(forests(before.layers@)[loc.0 as int], loc.1);
            exists|p: Shape<E, S, O>| #[trigger] text_copy(p, text, style)
                && forests(after.layers@) == replaced_at_loc(forests(before.layers@), loc, ObjectModel { data: p, ..m })
        },
        None => forests(after.layers@) == forests(before.layers@),
    }
}

fn set_path<E: Clone, S, O>(doc: &mut Document<Shape<E, S, O>>, id: &String, els: &Vec<E>)
    ensures
        path_set(*old(doc), *final(doc), id@, els@),
{
    let ghost fs = forests(doc.layers@);
    proof { lemma_doc_find_loc(fs, id@); }
    match doc.find_object_mut(id.as_str()) {
        Some(obj) => {
            let ghost m0 = obj.model();
            let ghost loc = doc_find_loc(fs, id@)->0;
            assert(at_path(fs[loc.0 as int], loc.1) == m0);
            let is_path = match &obj.data {
                Shape::Path(_) => true,
                _ => false,
            };
            if is_path {
                let v = els.clone();
                let ghost d = Shape::<E, S, O>::Path(v);
                obj.data = Shape::Path(v);
                assert(obj.model() == ObjectModel { data: d, ..m0 });
                assert(path_copy(d, els@));
            } else {
                proof { lemma_replace_same(fs[loc.0 as int], loc.1); }
                assert(fs.update(loc.0 as int, fs[loc.0 as int]) =~= fs);
            }
        },
        None => {},
    }
}

fn set_text<E, S: Clone, O>(doc: &mut Document<Shape<E, S, O>>, id: &String, text: &String, style: &S)
    ensures
        text_set(*old(doc), *final(doc), id@, text@, *style),
{
    let ghost fs = forests(doc.layers@);
    proof { lemma_doc_find_loc(fs, id@); }
    match doc.find_object_mut(id.as_str()) {
        Some(obj) => {
            let ghost m0 = obj.model();
            let ghost loc = doc_find_loc(fs, id@)->0;
            assert(at_path(fs[loc.0 as int], loc.1) == m0);
            let t = text.clone();
            let st = style.clone();
            let ghost d = Shape::<E, S, O>::Text { text: t, style: st };
            obj.data = Shape::Text { text: t, style: st };
            assert(obj.model() == ObjectModel { data: d, ..m0 });
            assert(text_copy(d, text@, *style));
        },
        None => {},
    }
}

impl<E: Clone, S, O> Command<Document<Shape<E, S, O>>> for ModifyPathCommand<E> {
    open spec fn executes(&self, before: Document<Shape<E, S, O>>, after: Document<Shape<E, S, O>>) -> bool {
        path_set(before, after, self.object_id@, self.new_elements@)
    }

    open spec fn undoes(&self, before: Document<Shape<E, S, O>>, after: Document<Shape<E, S, O>>) -> bool {
        path_set(before, after, self.object_id@, self.old_elements@)
    }

    fn execute(&self, doc: &mut Document<Shape<E, S, O>>) {
        set_path(doc, &self.object_id, &self.new_elements);
    }

    fn undo(&self, doc: &mut Document<Shape<E, S, O>>) {
        set_path(doc, &self.object_id, &self.old_elements);
    }
}

impl<E, S: Clone, O> Command<Document<Shape<E, S, O>>> for ModifyTextCommand<S> {
    open spec fn executes(&self, before: Document<Shape<E, S, O>>, after: Document<Shape<E, S, O>>) -> bool {
        text_set(before, after, self.object_id@, self.new_text@, self.new_style)
    }

    open spec fn undoes(&self, before: Document<Shape<E, S, O>>, after: Document<Shape<E, S, O>>) -> bool {
        text_set(before, after, self.object_id@, self.old_text@, self.old_style)
    }

    fn execute(&self, doc: &mut Document<Shape<E, S, O>>) {
        set_text(doc, &self.object_id, &self.new_text, &self.new_style);
    }

    fn undo(&self, doc: &mut Document<Shape<E, S, O>>) {
        set_text(doc, &self.object_id, &self.old_text, &self.old_style);
    }
}

} // verus!
