//! The layered object tree of a drawing.
use vstd::prelude::*;
use crate::text::chars_of;
use crate::ordering::Keyed;

verus! {

/// How deep `find` / `parent_of` descend into nested groups.
pub const MAX_NESTING_DEPTH: usize = 128;

/// The nesting part of an object.
pub enum Nesting<P> {
    Leaf,
    Group(Vec<Object<P>>),
    ClippingMask(Vec<Object<P>>),
}

/// A drawable object. `data` carries everything that the tree operations
/// never look at (geometry, transform, styling).
pub struct Object<P> {
    pub id: String,
    pub name: String,
    pub data: P,
    pub nesting: Nesting<P>,
}

/// The kind of nesting of an object, as seen by the model.
#[derive(PartialEq, Eq, Structural, Clone, Copy)]
pub enum NestKind {
    Leaf,
    Group,
    ClippingMask,
}

/// Mathematical model of an object: its identity, payload and children.
pub struct ObjectModel<P> {
    pub id: Seq<char>,
    pub name: Seq<char>,
    pub data: P,
    pub kind: NestKind,
    pub kids: Seq<ObjectModel<P>>,
}

impl<P> Object<P> {
    pub open spec fn model(self) -> ObjectModel<P>
        decreases self,
    {
        match self.nesting {
            Nesting::Leaf => ObjectModel {
                id: self.id@,
                name: self.name@,
                data: self.data,
                kind: NestKind::Leaf,
                kids: Seq::empty(),
            },
            Nesting::Group(c) => ObjectModel {
                id: self.id@,
                name: self.name@,
                data: self.data,
                kind: NestKind::Group,
                kids: models(c@),
            },
            Nesting::ClippingMask(c) => ObjectModel {
                id: self.id@,
                name: self.name@,
                data: self.data,
                kind: NestKind::ClippingMask,
                kids: models(c@),
            },
        }
    }
}

/// The models of a sequence of objects.
pub open spec fn models<P>(s: Seq<Object<P>>) -> Seq<ObjectModel<P>>
    decreases s,
{
    if s.len() == 0 {
        Seq::empty()
    } else {
        seq![s[0].model()] + models(s.drop_first())
    }
}

pub proof fn lemma_models<P>(s: Seq<Object<P>>)
    ensures
        models(s).len() == s.len(),
        forall|i: int| 0 <= i < s.len() ==> #[trigger] models(s)[i] == s[i].model(),
    decreases s.len(),
{
    if s.len() > 0 {
        lemma_models(s.drop_first());
        assert forall|i: int| 0 <= i < s.len() implies #[trigger] models(s)[i] == s[i].model() by {
            if i > 0 {
                assert(models(s)[i] == models(s.drop_first())[i - 1]);
            }
        }
    }
}


/// First object (pre-order) whose id is `id`, descending at most
/// `MAX_NESTING_DEPTH` levels below `depth`.
pub open spec fn find_model<P>(objs: Seq<ObjectModel<P>>, id: Seq<char>, depth: nat) -> Option<ObjectModel<P>>
    decreases 129 - depth, objs.len(),
{
    if depth > 128 || objs.len() == 0 {
        None
    } else if objs[0].id == id {
        Some(objs[0])
    } else {
        match find_model(objs[0].kids, id, depth + 1) {
            Some(f) => Some(f),
            None => find_model(objs.drop_first(), id, depth),
        }
    }
}

/// Index of the first object with the given id.
pub open spec fn position_of<P>(objs: Seq<ObjectModel<P>>, id: Seq<char>) -> Option<nat>
    decreases objs.len(),
{
    if objs.len() == 0 {
        None
    } else if objs[0].id == id {
        Some(0)
    } else {
        match position_of(objs.drop_first(), id) {
            Some(p) => Some(p + 1),
            None => None,
        }
    }
}

/// The container (id and child index) that directly holds the first
/// nested object with id `id`; top-level objects of `objs` are not reported.
pub open spec fn parent_model<P>(objs: Seq<ObjectModel<P>>, id: Seq<char>, depth: nat) -> Option<(Seq<char>, nat)>
    decreases 129 - depth, objs.len(),
{
    if depth > 128 || objs.len() == 0 {
        None
    } else if objs[0].kind != NestKind::Leaf && position_of(objs[0].kids, id) is Some {
        Some((objs[0].id, position_of(objs[0].kids, id)->0))
    } else {
        match (if objs[0].kind != NestKind::Leaf { parent_model(objs[0].kids, id, depth + 1) } else { None }) {
            Some(f) => Some(f),
            None => parent_model(objs.drop_first(), id, depth),
        }
    }
}


/// Index of the first object of `objs` whose id is `id`.
pub fn position_in<P>(objs: &Vec<Object<P>>, id: &str) -> (r: Option<usize>)
    ensures
        r matches Some(p) ==> p < objs@.len() && objs@[p as int].id@ == id@,
        position_of(models(objs@), id@) == (match r { Some(p) => Some(p as nat), None => None }),
{
    proof { lemma_models(objs@); }
    assert(models(objs@).skip(0) =~= models(objs@));
    let key = id.to_owned();
    let n = objs.len();
    let mut i: usize = 0;
    while i < n
        invariant
            n == objs@.len(),
            i <= n,
            key@ == id@,
            position_of(models(objs@), id@) == (match position_of(models(objs@).skip(i as int), id@) {
                Some(p) => Some((p + i) as nat),
                None => None::<nat>,
            }),
        decreases n - i,
    {
        proof { lemma_models(objs@); }
        assert(models(objs@).skip(i as int).drop_first() =~= models(objs@).skip(i + 1));
        if objs[i].id == key {
            return Some(i);
        }
        i += 1;
    }
    None
}

fn find_in_objects_depth<'a, P>(objs: &'a Vec<Object<P>>, id: &str, depth: usize) -> (r: Option<&'a Object<P>>)
    ensures
        match r {
            Some(o) => find_model(models(objs@), id@, depth as nat) == Some(o.model()),
            None => find_model(models(objs@), id@, depth as nat) is None,
        },
    decreases 129 - depth,
{
    if depth > MAX_NESTING_DEPTH {
        return None;
    }
    proof { lemma_models(objs@); }
    assert(models(objs@).skip(0) =~= models(objs@));
    let key = id.to_owned();
    let n = objs.len();
    let mut i: usize = 0;
    while i < n
        invariant
            n == objs@.len(),
            i <= n,
            depth <= 128,
            key@ == id@,
            find_model(models(objs@), id@, depth as nat) == find_model(models(objs@).skip(i as int), id@, depth as nat),
        decreases n - i,
    {
        proof { lemma_models(objs@); }
        assert(models(objs@).skip(i as int).drop_first() =~= models(objs@).skip(i + 1));
        let o = &objs[i];
        if o.id == key {
            return Some(o);
        }
        assert(models(objs@).skip(i as int)[0] == o.model());
        match &o.nesting {
            Nesting::Group(children) => {
                assert(o.model().kids == models(children@));
                if let Some(found) = find_in_objects_depth(children, id, depth + 1) {
                    return Some(found);
                }
            }
            Nesting::ClippingMask(children) => {
                assert(o.model().kids == models(children@));
                if let Some(found) = find_in_objects_depth(children, id, depth + 1) {
                    return Some(found);
                }
            }
            Nesting::Leaf => {
                assert(o.model().kids == Seq::<ObjectModel<P>>::empty());
            }
        }
        assert(find_model(o.model().kids, id@, (depth + 1) as nat) is None);
        assert(find_model(models(objs@).skip(i as int), id@, depth as nat)
            == find_model(models(objs@).skip(i as int).drop_first(), id@, depth as nat));
        i += 1;
    }
    None
}


/// The model with the kids of a container replaced.
pub open spec fn with_kids<P>(o: ObjectModel<P>, kids: Seq<ObjectModel<P>>) -> ObjectModel<P> {
    ObjectModel { kids: kids, ..o }
}

/// Removal inside one container: the container's new children and the
/// removed object. A direct child is taken first; otherwise the search
/// descends into the children.
pub open spec fn remove_in_container<P>(o: ObjectModel<P>, id: Seq<char>) -> (Seq<ObjectModel<P>>, Option<ObjectModel<P>>)
    decreases o, 0nat,
{
    if o.kind == NestKind::Leaf {
        (o.kids, None)
    } else {
        match position_of(o.kids, id) {
            Some(p) => (o.kids.remove(p as int), Some(o.kids[p as int])),
            None => remove_nested(o.kids, id),
        }
    }
}

/// Remove the first nested object with id `id` (objects of `objs` itself
/// are only searched as containers): the new sequence and the removed object.
pub open spec fn remove_nested<P>(objs: Seq<ObjectModel<P>>, id: Seq<char>) -> (Seq<ObjectModel<P>>, Option<ObjectModel<P>>)
    decreases objs, 1nat,
{
    if objs.len() == 0 {
        (objs, None)
    } else {
        let o = objs[0];
        let inner = remove_in_container(o, id);
        if inner.1 is Some {
            (objs.update(0, with_kids(o, inner.0)), inner.1)
        } else {
            let rest = remove_nested(objs.drop_first(), id);
            (seq![o] + rest.0, rest.1)
        }
    }
}

pub proof fn lemma_remove_nested_none<P>(objs: Seq<ObjectModel<P>>, id: Seq<char>)
    ensures
        remove_nested(objs, id).1 is None ==> remove_nested(objs, id).0 == objs,
    decreases objs,
{
    if objs.len() > 0 {
        let o = objs[0];
        if o.kind != NestKind::Leaf {
            lemma_remove_nested_none(o.kids, id);
        }
        lemma_remove_nested_none(objs.drop_first(), id);
        assert(seq![o] + objs.drop_first() =~= objs);
    }
}

pub proof fn lemma_models_update<P>(s: Seq<Object<P>>, i: int, x: Object<P>)
    requires
        0 <= i < s.len(),
    ensures
        models(s.update(i, x)) == models(s).update(i, x.model()),
{
    lemma_models(s);
    lemma_models(s.update(i, x));
    assert(models(s.update(i, x)) =~= models(s).update(i, x.model()));
}

pub proof fn lemma_models_remove<P>(s: Seq<Object<P>>, i: int)
    requires
        0 <= i < s.len(),
    ensures
        models(s.remove(i)) == models(s).remove(i),
{
    lemma_models(s);
    lemma_models(s.remove(i));
    assert(models(s.remove(i)) =~= models(s).remove(i));
}

pub proof fn lemma_models_insert<P>(s: Seq<Object<P>>, i: int, x: Object<P>)
    requires
        0 <= i <= s.len(),
    ensures
        models(s.insert(i, x)) == models(s).insert(i, x.model()),
{
    lemma_models(s);
    lemma_models(s.insert(i, x));
    assert(models(s.insert(i, x)) =~= models(s).insert(i, x.model()));
}

pub proof fn lemma_models_push<P>(s: Seq<Object<P>>, x: Object<P>)
    ensures
        models(s.push(x)) == models(s).push(x.model()),
{
    lemma_models(s);
    lemma_models(s.push(x));
    assert(models(s.push(x)) =~= models(s).push(x.model()));
}

/// Number of objects in a forest, nested ones included.
pub open spec fn tree_size<P>(objs: Seq<ObjectModel<P>>) -> nat
    decreases objs,
{
    if objs.len() == 0 {
        0
    } else {
        1 + tree_size(objs[0].kids) + tree_size(objs.drop_first())
    }
}

pub proof fn lemma_tree_size_kids<P>(objs: Seq<ObjectModel<P>>, i: int)
    requires
        0 <= i < objs.len(),
    ensures
        tree_size(objs[i].kids) < tree_size(objs),
    decreases objs.len(),
{
    if i > 0 {
        lemma_tree_size_kids(objs.drop_first(), i - 1);
    }
}

fn remove_in_nesting<P>(nesting: &mut Nesting<P>, key: &String) -> (r: Option<Object<P>>)
    ensures
        nest_kind(*final(nesting)) == nest_kind(*old(nesting)),
        nest_models(*final(nesting)) == remove_in_container(nest_model(*old(nesting)), key@).0,
        match r {
            Some(o) => remove_in_container(nest_model(*old(nesting)), key@).1 == Some(o.model()),
            None => remove_in_container(nest_model(*old(nesting)), key@).1 is None,
        },
    decreases tree_size(nest_models(*old(nesting))), 1nat,
{
    match nesting {
        Nesting::Leaf => None,
        Nesting::Group(children) => {
            if let Some(p) = position_in(children, key.as_str()) {
                proof { lemma_models(children@); lemma_models_remove(children@, p as int); }
                Some(children.remove(p))
            } else {
                remove_from_objects(children, key)
            }
        }
        Nesting::ClippingMask(children) => {
            if let Some(p) = position_in(children, key.as_str()) {
                proof { lemma_models(children@); lemma_models_remove(children@, p as int); }
                Some(children.remove(p))
            } else {
                remove_from_objects(children, key)
            }
        }
    }
}

pub open spec fn nest_kind<P>(n: Nesting<P>) -> NestKind {
    match n {
        Nesting::Leaf => NestKind::Leaf,
        Nesting::Group(_) => NestKind::Group,
        Nesting::ClippingMask(_) => NestKind::ClippingMask,
    }
}

pub open spec fn nest_models<P>(n: Nesting<P>) -> Seq<ObjectModel<P>> {
    match n {
        Nesting::Leaf => Seq::empty(),
        Nesting::Group(c) => models(c@),
        Nesting::ClippingMask(c) => models(c@),
    }
}

/// A container model made of just the nesting (identity fields are
/// irrelevant to the removal).
pub open spec fn nest_model<P>(n: Nesting<P>) -> ObjectModel<P> {
    ObjectModel { id: Seq::empty(), name: Seq::empty(), data: arbitrary(), kind: nest_kind(n), kids: nest_models(n) }
}

fn remove_from_objects<P>(objs: &mut Vec<Object<P>>, key: &String) -> (r: Option<Object<P>>)
    ensures
        models(final(objs)@) == remove_nested(models(old(objs)@), key@).0,
        match r {
            Some(o) => remove_nested(models(old(objs)@), key@).1 == Some(o.model()),
            None => remove_nested(models(old(objs)@), key@).1 is None,
        },
    decreases tree_size(models(old(objs)@)), 0nat,
{
    let ghost orig = models(objs@);
    proof { lemma_remove_nested_none(orig, key@); lemma_models(objs@); }
    assert(orig.skip(0) =~= orig);
    assert(orig.take(0) + orig.skip(0) =~= orig);
    let n = objs.len();
    let mut i: usize = 0;
    while i < n
        invariant
            n == objs@.len(),
            i <= n,
            models(objs@) == orig,
            orig == models(old(objs)@),
            remove_nested(orig, key@) == ({
                let rest = remove_nested(orig.skip(i as int), key@);
                (orig.take(i as int) + rest.0, rest.1)
            }),
        decreases n - i,
    {
        let ghost before = objs@;
        proof {
            lemma_models(objs@);
            lemma_tree_size_kids(orig, i as int);
            lemma_remove_nested_none(orig.skip(i as int), key@);
            lemma_remove_nested_none(orig.skip(i + 1), key@);
            lemma_remove_nested_none(orig[i as int].kids, key@);
        }
        assert(orig.skip(i as int).drop_first() =~= orig.skip(i + 1));
        assert(orig.skip(i as int)[0] == orig[i as int]);
        assert(orig[i as int] == objs@[i as int].model());
        assert(nest_model(objs@[i as int].nesting) == with_id(orig[i as int]));
        assert(nest_models(objs@[i as int].nesting) == orig[i as int].kids);
        assert(remove_in_container(with_id(orig[i as int]), key@) == remove_in_container(orig[i as int], key@));
        let r = remove_in_nesting(&mut objs[i].nesting, key);
        let ghost o2 = objs@[i as int];
        assert(objs@ == before.update(i as int, o2));
        assert(o2.model() == with_kids(orig[i as int], nest_models(o2.nesting)));
        proof { lemma_models_update(before, i as int, o2); }
        if r.is_some() {
            assert(orig.take(i as int) + orig.skip(i as int).update(0, o2.model()) =~= orig.update(i as int, o2.model()));
            return r;
        }
        assert(o2.model() == orig[i as int]);
        assert(models(objs@) =~= orig);
        assert(orig.take(i as int) + (seq![orig[i as int]] + remove_nested(orig.skip(i + 1), key@).0)
            =~= orig.take(i + 1) + remove_nested(orig.skip(i + 1), key@).0);
        i += 1;
    }
    None
}

/// A container model with blank identity fields.
pub open spec fn with_id<P>(o: ObjectModel<P>) -> ObjectModel<P> {
    ObjectModel { id: Seq::empty(), name: Seq::empty(), data: arbitrary(), kind: o.kind, kids: o.kids }
}


fn parent_in_objects_depth<P>(objs: &Vec<Object<P>>, key: &String, depth: usize) -> (r: Option<(String, usize)>)
    ensures
        match r {
            Some((pid, pos)) => parent_model(models(objs@), key@, depth as nat) == Some((pid@, pos as nat)),
            None => parent_model(models(objs@), key@, depth as nat) is None,
        },
    decreases 129 - depth,
{
    if depth > MAX_NESTING_DEPTH {
        return None;
    }
    proof { lemma_models(objs@); }
    assert(models(objs@).skip(0) =~= models(objs@));
    let n = objs.len();
    let mut i: usize = 0;
    while i < n
        invariant
            n == objs@.len(),
            i <= n,
            depth <= 128,
            parent_model(models(objs@), key@, depth as nat) == parent_model(models(objs@).skip(i as int), key@, depth as nat),
        decreases n - i,
    {
        proof { lemma_models(objs@); }
        assert(models(objs@).skip(i as int).drop_first() =~= models(objs@).skip(i + 1));
        let o = &objs[i];
        assert(models(objs@).skip(i as int)[0] == o.model());
        let children: Option<&Vec<Object<P>>> = match &o.nesting {
            Nesting::Group(c) => Some(c),
            Nesting::ClippingMask(c) => Some(c),
            Nesting::Leaf => None,
        };
        if let Some(c) = children {
            assert(o.model().kids == models(c@));
            assert(o.model().kind != NestKind::Leaf);
            if let Some(pos) = position_in(c, key.as_str()) {
                return Some((o.id.clone(), pos));
            }
            if let Some(found) = parent_in_objects_depth(c, key, depth + 1) {
                return Some(found);
            }
        }
        i += 1;
    }
    None
}

/// A layer of the drawing.
pub struct Layer<P> {
    pub id: String,
    pub name: String,
    pub objects: Vec<Object<P>>,
    pub visible: bool,
    pub locked: bool,
    /// IEEE-754 bits of the layer opacity (an `f32` in 0..=1).
    pub opacity_bits: u32,
}

/// Bits of the `f32` value 1.0.
pub const OPACITY_ONE_BITS: u32 = 0x3f80_0000;

/// A reusable component definition.
pub struct Symbol<P> {
    pub id: String,
    pub name: String,
    pub object: Object<P>,
    pub use_count: usize,
}

/// The object structure of a drawing: its layers, the active layer and
/// its component symbols.
pub struct Document<P> {
    pub name: String,
    pub layers: Vec<Layer<P>>,
    pub active_layer_idx: usize,
    /// Canvas width, the IEEE-754 bits of an `f64`.
    pub width_bits: u64,
    /// Canvas height, the IEEE-754 bits of an `f64`.
    pub height_bits: u64,
    pub symbols: Vec<Symbol<P>>,
}

/// What a layer is besides its objects: id, name, visibility, lock and
/// opacity bits.
pub open spec fn layer_meta<P>(l: Layer<P>) -> (Seq<char>, Seq<char>, bool, bool, u32) {
    (l.id@, l.name@, l.visible, l.locked, l.opacity_bits)
}

/// The layers besides their objects.
pub open spec fn metas<P>(ls: Seq<Layer<P>>) -> Seq<(Seq<char>, Seq<char>, bool, bool, u32)> {
    Seq::new(ls.len(), |i: int| layer_meta(ls[i]))
}

/// Bits of the `f64` 1920.0, the default canvas width.
pub const DEFAULT_WIDTH_BITS: u64 = 0x409E_0000_0000_0000;

/// Bits of the `f64` 1080.0, the default canvas height.
pub const DEFAULT_HEIGHT_BITS: u64 = 0x4090_E000_0000_0000;

/// Whether `f64` bits encode a finite number greater than zero: the sign
/// is clear, the value is not zero, and the exponent is not all ones.
pub open spec fn finite_positive(bits: u64) -> bool {
    0 < bits < 0x7FF0_0000_0000_0000
}

/// Whether `f64` bits encode a finite number greater than zero.
pub fn is_finite_positive(bits: u64) -> (r: bool)
    ensures
        r == finite_positive(bits),
{
    0 < bits && bits < 0x7FF0_0000_0000_0000
}

/// The top-level objects of a sequence of layers with their layer
/// indices, layer by layer in order.
pub open spec fn top_level<P>(ls: Seq<Layer<P>>) -> Seq<(usize, Object<P>)>
    decreases ls.len(),
{
    if ls.len() == 0 {
        Seq::empty()
    } else {
        let li = (ls.len() - 1) as usize;
        top_level(ls.drop_last()) + ls.last().objects@.map_values(|o: Object<P>| (li, o))
    }
}

/// The object forests of a sequence of layers.
pub open spec fn forests<P>(ls: Seq<Layer<P>>) -> Seq<Seq<ObjectModel<P>>> {
    Seq::new(ls.len(), |i: int| models(ls[i].objects@))
}

/// Deep lookup across layers, in layer order.
pub open spec fn doc_find<P>(fs: Seq<Seq<ObjectModel<P>>>, id: Seq<char>) -> Option<ObjectModel<P>>
    decreases fs.len(),
{
    if fs.len() == 0 {
        None
    } else {
        match find_model(fs[0], id, 0) {
            Some(o) => Some(o),
            None => doc_find(fs.drop_first(), id),
        }
    }
}

/// Location of an object: (parent container id, layer index, index in the
/// parent or layer).
pub open spec fn doc_parent_of<P>(fs: Seq<Seq<ObjectModel<P>>>, id: Seq<char>, base: nat) -> Option<(Option<Seq<char>>, nat, nat)>
    decreases fs.len(),
{
    if fs.len() == 0 {
        None
    } else {
        match position_of(fs[0], id) {
            Some(p) => Some((None, base, p)),
            None => match parent_model(fs[0], id, 0) {
                Some((pid, p)) => Some((Some(pid), base, p)),
                None => doc_parent_of(fs.drop_first(), id, base + 1),
            },
        }
    }
}

/// Removal across layers: a top-level object of a layer is taken before the
/// nested objects of that layer; layers are searched in order.
pub open spec fn doc_remove<P>(fs: Seq<Seq<ObjectModel<P>>>, id: Seq<char>) -> (Seq<Seq<ObjectModel<P>>>, Option<ObjectModel<P>>)
    decreases fs.len(),
{
    if fs.len() == 0 {
        (fs, None)
    } else {
        let objs = fs[0];
        match position_of(objs, id) {
            Some(p) => (fs.update(0, objs.remove(p as int)), Some(objs[p as int])),
            None => {
                let r = remove_nested(objs, id);
                if r.1 is Some {
                    (fs.update(0, r.0), r.1)
                } else {
                    let rest = doc_remove(fs.drop_first(), id);
                    (seq![objs] + rest.0, rest.1)
                }
            }
        }
    }
}

impl<P> Document<P> {
    pub open spec fn wf(&self) -> bool {
        self.active_layer_idx < self.layers@.len()
    }

    /// Append an object to the active layer.
    pub fn add_object(&mut self, obj: Object<P>)
        requires
            old(self).wf(),
        ensures
            final(self).wf(),
            final(self).active_layer_idx == old(self).active_layer_idx,
            final(self).symbols == old(self).symbols,
            final(self).name == old(self).name,
            forests(final(self).layers@) == forests(old(self).layers@).update(
                old(self).active_layer_idx as int,
                forests(old(self).layers@)[old(self).active_layer_idx as int].push(obj.model()),
            ),
    {
        let ghost before = self.layers@;
        let ghost m = obj.model();
        let idx = self.active_layer_idx;
        let ghost objs_before = self.layers@[idx as int].objects@;
        self.layers[idx].objects.push(obj);
        proof { lemma_models_push(objs_before, obj); }
        assert(forests(self.layers@) =~= forests(before).update(idx as int, forests(before)[idx as int].push(m)));
    }

    /// Deep lookup that also descends into group / clipping-mask children.
    pub fn find_object(&self, id: &str) -> (r: Option<&Object<P>>)
        ensures
            match r {
                Some(o) => doc_find(forests(self.layers@), id@) == Some(o.model()),
                None => doc_find(forests(self.layers@), id@) is None,
            },
    {
        let n = self.layers.len();
        let ghost fs = forests(self.layers@);
        assert(fs.skip(0) =~= fs);
        let mut i: usize = 0;
        while i < n
            invariant
                n == self.layers@.len(),
                i <= n,
                fs == forests(self.layers@),
                doc_find(fs, id@) == doc_find(fs.skip(i as int), id@),
            decreases n - i,
        {
            assert(fs.skip(i as int).drop_first() =~= fs.skip(i + 1));
            assert(fs.skip(i as int)[0] == models(self.layers@[i as int].objects@));
            if let Some(o) = find_in_objects_depth(&self.layers[i].objects, id, 0) {
                return Some(o);
            }
            i += 1;
        }
        None
    }

    /// Locate an object: (parent object id or `None` for top level,
    /// layer index, index within the parent or layer).
    pub fn parent_of(&self, id: &str) -> (r: Option<(Option<String>, usize, usize)>)
        ensures
            doc_parent_of(forests(self.layers@), id@, 0) == (match r {
                Some((p, li, pos)) => Some((
                    match p { Some(s) => Some(s@), None => None },
                    li as nat,
                    pos as nat,
                )),
                None => None,
            }),
    {
        let key = id.to_owned();
        let n = self.layers.len();
        let ghost fs = forests(self.layers@);
        assert(fs.skip(0) =~= fs);
        let mut i: usize = 0;
        while i < n
            invariant
                n == self.layers@.len(),
                i <= n,
                key@ == id@,
                fs == forests(self.layers@),
                doc_parent_of(fs, id@, 0) == doc_parent_of(fs.skip(i as int), id@, i as nat),
            decreases n - i,
        {
            assert(fs.skip(i as int).drop_first() =~= fs.skip(i + 1));
            assert(fs.skip(i as int)[0] == models(self.layers@[i as int].objects@));
            if let Some(pos) = position_in(&self.layers[i].objects, id) {
                return Some((None, i, pos));
            }
            if let Some((pid, pos)) = parent_in_objects_depth(&self.layers[i].objects, &key, 0) {
                return Some((Some(pid), i, pos));
            }
            i += 1;
        }
        None
    }

    /// Remove an object wherever it sits and return it.
    pub fn remove_object(&mut self, id: &str) -> (r: Option<Object<P>>)
        ensures
            final(self).active_layer_idx == old(self).active_layer_idx,
            final(self).symbols == old(self).symbols,
            final(self).name == old(self).name,
            final(self).width_bits == old(self).width_bits,
            final(self).height_bits == old(self).height_bits,
            metas(final(self).layers@) == metas(old(self).layers@),
            final(self).layers@.len() == old(self).layers@.len(),
            forests(final(self).layers@) == doc_remove(forests(old(self).layers@), id@).0,
            match r {
                Some(o) => doc_remove(forests(old(self).layers@), id@).1 == Some(o.model()),
                None => doc_remove(forests(old(self).layers@), id@).1 is None,
            },
    {
        let key = id.to_owned();
        let n = self.layers.len();
        let ghost orig = forests(self.layers@);
        proof { lemma_doc_remove_none(orig, id@); }
        assert(orig.skip(0) =~= orig);
        assert(orig.take(0) + orig.skip(0) =~= orig);
        let mut i: usize = 0;
        while i < n
            invariant
                n == self.layers@.len(),
                i <= n,
                key@ == id@,
                self.active_layer_idx == old(self).active_layer_idx,
                self.symbols == old(self).symbols,
                self.name == old(self).name,
                self.width_bits == old(self).width_bits,
                self.height_bits == old(self).height_bits,
                metas(self.layers@) == metas(old(self).layers@),
                orig == forests(old(self).layers@),
                forests(self.layers@) == orig,
                doc_remove(orig, id@) == ({
                    let rest = doc_remove(orig.skip(i as int), id@);
                    (orig.take(i as int) + rest.0, rest.1)
                }),
            decreases n - i,
        {
            let ghost before = self.layers@;
            proof {
                lemma_doc_remove_none(orig.skip(i + 1), id@);
                lemma_remove_nested_none(orig[i as int], id@);
            }
            assert(orig.skip(i as int).drop_first() =~= orig.skip(i + 1));
            assert(orig.skip(i as int)[0] == orig[i as int]);
            assert(orig[i as int] == models(before[i as int].objects@));
            if let Some(pos) = position_in(&self.layers[i].objects, id) {
                proof { lemma_models(before[i as int].objects@); lemma_models_remove(before[i as int].objects@, pos as int); }
                let removed = self.layers[i].objects.remove(pos);
                assert(metas(self.layers@) =~= metas(before));
                assert(forests(self.layers@) =~= orig.update(i as int, orig[i as int].remove(pos as int)));
                assert(orig.take(i as int) + orig.skip(i as int).update(0, orig[i as int].remove(pos as int))
                    =~= orig.update(i as int, orig[i as int].remove(pos as int)));
                return Some(removed);
            }
            let r = remove_from_objects(&mut self.layers[i].objects, &key);
            let ghost now = self.layers@;
            assert(metas(now) =~= metas(before));
            assert(forests(now) =~= orig.update(i as int, models(now[i as int].objects@)));
            if r.is_some() {
                assert(orig.take(i as int) + orig.skip(i as int).update(0, remove_nested(orig[i as int], id@).0)
                    =~= orig.update(i as int, remove_nested(orig[i as int], id@).0));
                return r;
            }
            assert(forests(self.layers@) =~= orig);
            assert(orig.take(i as int) + (seq![orig[i as int]] + doc_remove(orig.skip(i + 1), id@).0)
                =~= orig.take(i + 1) + doc_remove(orig.skip(i + 1), id@).0);
            i += 1;
        }
        None
    }
}

pub proof fn lemma_doc_remove_none<P>(fs: Seq<Seq<ObjectModel<P>>>, id: Seq<char>)
    ensures
        doc_remove(fs, id).1 is None ==> doc_remove(fs, id).0 == fs,
    decreases fs.len(),
{
    if fs.len() > 0 {
        lemma_remove_nested_none(fs[0], id);
        lemma_doc_remove_none(fs.drop_first(), id);
        assert(seq![fs[0]] + fs.drop_first() =~= fs);
    }
}


/// Whether some object of the forest, at any depth, has id `id`.
pub open spec fn occurs<P>(objs: Seq<ObjectModel<P>>, id: Seq<char>) -> bool
    decreases objs,
{
    objs.len() > 0 && (objs[0].id == id || occurs(objs[0].kids, id) || occurs(objs.drop_first(), id))
}

pub proof fn lemma_absent<P>(objs: Seq<ObjectModel<P>>, id: Seq<char>)
    requires
        !occurs(objs, id),
    ensures
        position_of(objs, id) is None,
        remove_nested(objs, id).1 is None,
    decreases objs,
{
    if objs.len() > 0 {
        lemma_absent(objs[0].kids, id);
        lemma_absent(objs.drop_first(), id);
        assert(remove_in_container(objs[0], id).1 is None);
    }
}

pub proof fn lemma_position_push<P>(objs: Seq<ObjectModel<P>>, o: ObjectModel<P>)
    requires
        !occurs(objs, o.id),
    ensures
        position_of(objs.push(o), o.id) == Some(objs.len()),
    decreases objs.len(),
{
    if objs.len() > 0 {
        lemma_position_push(objs.drop_first(), o);
        assert(objs.push(o).drop_first() =~= objs.drop_first().push(o));
    }
}

pub proof fn lemma_position_first<P>(objs: Seq<ObjectModel<P>>, p: int, id: Seq<char>)
    requires
        0 <= p < objs.len(),
        objs[p].id == id,
        forall|j: int| 0 <= j < p ==> objs[j].id != id,
    ensures
        position_of(objs, id) == Some(p as nat),
    decreases objs.len(),
{
    if p > 0 {
        lemma_position_first(objs.drop_first(), p - 1, id);
    }
}

/// Removing an object that was just added with an id that occurs nowhere
/// in the drawing gives back the drawing and the object
/// (what undoing an add relies on).
pub proof fn law_remove_undoes_add<P>(fs: Seq<Seq<ObjectModel<P>>>, active: nat, o: ObjectModel<P>)
    requires
        active < fs.len(),
        forall|k: int| 0 <= k < fs.len() ==> !occurs(#[trigger] fs[k], o.id),
    ensures
        doc_remove(fs.update(active as int, fs[active as int].push(o)), o.id) == (fs, Some(o)),
    decreases active,
{
    let gs = fs.update(active as int, fs[active as int].push(o));
    if active == 0 {
        lemma_position_push(fs[0], o);
        assert(fs[0].push(o).remove(fs[0].len() as int) =~= fs[0]);
        assert(gs.update(0, fs[0]) =~= fs);
    } else {
        lemma_absent(fs[0], o.id);
        let tail = fs.drop_first();
        assert forall|k: int| 0 <= k < tail.len() implies !occurs(#[trigger] tail[k], o.id) by {
            assert(tail[k] == fs[k + 1]);
        }
        law_remove_undoes_add(tail, (active - 1) as nat, o);
        assert(gs.drop_first() =~= tail.update(active - 1, tail[active - 1].push(o)));
        assert(seq![fs[0]] + tail =~= fs);
    }
}

/// Removing the first top-level object with a given id, in the first layer
/// where the id occurs, and putting it back at the same index gives back
/// the drawing (what undoing a removal relies on).
pub proof fn law_reinsert_undoes_remove<P>(fs: Seq<Seq<ObjectModel<P>>>, li: nat, p: nat, id: Seq<char>)
    requires
        li < fs.len(),
        p < fs[li as int].len(),
        fs[li as int][p as int].id == id,
        forall|j: int| 0 <= j < p ==> (#[trigger] fs[li as int][j]).id != id,
        forall|k: int| 0 <= k < li ==> !occurs(#[trigger] fs[k], id),
    ensures
        doc_remove(fs, id) == (fs.update(li as int, fs[li as int].remove(p as int)), Some(fs[li as int][p as int])),
        doc_remove(fs, id).0.update(li as int, doc_remove(fs, id).0[li as int].insert(p as int, fs[li as int][p as int])) == fs,
    decreases li,
{
    if li == 0 {
        lemma_position_first(fs[0], p as int, id);
    } else {
        lemma_absent(fs[0], id);
        let tail = fs.drop_first();
        assert forall|k: int| 0 <= k < li - 1 implies !occurs(#[trigger] tail[k], id) by {
            assert(tail[k] == fs[k + 1]);
        }
        law_reinsert_undoes_remove(tail, (li - 1) as nat, p, id);
        assert(seq![fs[0]] + tail.update(li - 1, tail[li - 1].remove(p as int))
            =~= fs.update(li as int, fs[li as int].remove(p as int)));
    }
    let removed = fs.update(li as int, fs[li as int].remove(p as int));
    assert(removed[li as int].insert(p as int, fs[li as int][p as int]) =~= fs[li as int]);
    assert(removed.update(li as int, fs[li as int]) =~= fs);
}


/// Lower-case hexadecimal digit.
pub open spec fn is_hex_lower(c: char) -> bool {
    ('0' <= c && c <= '9') || ('a' <= c && c <= 'f')
}

/// The hyphenated text form of a version-4 UUID
/// (`xxxxxxxx-xxxx-4xxx-xxxx-xxxxxxxxxxxx`, lower-case hex).
pub open spec fn is_uuid_v4_text(s: Seq<char>) -> bool {
    &&& s.len() == 36
    &&& forall|i: int| 0 <= i < 36 ==> (if i == 8 || i == 13 || i == 18 || i == 23 {
        s[i] == '-'
    } else {
        is_hex_lower(#[trigger] s[i])
    })
    &&& s[14] == '4'
}

/// `uuid::Uuid::new_v4()` rendered with `to_string()`: a fresh random
/// identifier. Claimed: the text is the 36-character hyphenated lower-case
/// form with version digit 4 (uuid's `Display` writes `Hyphenated`, and
/// `new_v4` sets the version bits). Which identifier comes out is left
/// unsaid: it rests on chance.
#[verifier::external_body]
pub(crate) fn new_uuid_string() -> (s: String)
    ensures
        is_uuid_v4_text(s@),
{
    uuid::Uuid::new_v4().to_string()
}

impl<P> Object<P> {
    /// A new group with a fresh id holding `objects`; `data` is the
    /// group's own payload.
    pub fn new_group(name: &str, objects: Vec<Object<P>>, data: P) -> (o: Object<P>)
        ensures
            is_uuid_v4_text(o.id@),
            o.name@ == name@,
            o.data == data,
            o.nesting == Nesting::Group(objects),
    {
        Object { id: new_uuid_string(), name: name.to_string(), data, nesting: Nesting::Group(objects) }
    }
}

impl<P> Symbol<P> {
    /// A new, unused symbol with a fresh id.
    pub fn new(name: &str, object: Object<P>) -> (s: Symbol<P>)
        ensures
            is_uuid_v4_text(s.id@),
            s.name@ == name@,
            s.object == object,
            s.use_count == 0,
    {
        Symbol { id: new_uuid_string(), name: name.to_owned(), object, use_count: 0 }
    }
}

impl<P> Layer<P> {
    /// A fresh, visible, unlocked, fully opaque and empty layer.
    pub fn new(name: &str) -> (l: Layer<P>)
        ensures
            is_uuid_v4_text(l.id@),
            l.name@ == name@,
            l.objects@.len() == 0,
            l.visible,
            !l.locked,
            l.opacity_bits == OPACITY_ONE_BITS,
    {
        Layer {
            id: new_uuid_string(),
            name: name.to_owned(),
            objects: Vec::new(),
            visible: true,
            locked: false,
            opacity_bits: OPACITY_ONE_BITS,
        }
    }
}

/// Swap the elements at `i` and `i + 1`.
pub fn swap_adjacent<T>(v: &mut Vec<T>, i: usize)
    requires
        i + 1 < old(v)@.len(),
    ensures
        final(v)@ == old(v)@.update(i as int, old(v)@[i + 1]).update(i + 1, old(v)@[i as int]),
{
    let n = v.len();
    assert(i + 1 < n);
    let x = v.remove(i + 1);
    v.insert(i, x);
    assert(v@ =~= old(v)@.update(i as int, old(v)@[i + 1]).update(i + 1, old(v)@[i as int]));
}

/// `id` without its leading `#` characters.
pub open spec fn strip_hashes(id: Seq<char>) -> Seq<char>
    decreases id.len(),
{
    if id.len() > 0 && id[0] == '#' { strip_hashes(id.drop_first()) } else { id }
}

fn strip_hashes_exec(id: &str) -> (r: Vec<char>)
    ensures
        r@ == strip_hashes(id@),
{
    let cs = chars_of(id);
    let n = cs.len();
    let mut k: usize = 0;
    assert(cs@.skip(0) =~= cs@);
    while k < n && cs[k] == '#'
        invariant
            n == cs@.len(),
            k <= n,
            strip_hashes(id@) == strip_hashes(cs@.skip(k as int)),
        decreases n - k,
    {
        assert(cs@.skip(k as int).drop_first() =~= cs@.skip(k + 1));
        k += 1;
    }
    let mut out: Vec<char> = Vec::new();
    let mut j = k;
    while j < n
        invariant
            n == cs@.len(),
            k <= j <= n,
            out@ == cs@.subrange(k as int, j as int),
        decreases n - j,
    {
        out.push(cs[j]);
        j += 1;
    }
    assert(out@ =~= cs@.skip(k as int));
    out
}

fn chars_eq(a: &Vec<char>, b: &Vec<char>) -> (r: bool)
    ensures
        r == (a@ == b@),
{
    if a.len() != b.len() {
        return false;
    }
    let n = a.len();
    for i in 0..n
        invariant
            n == a@.len(),
            n == b@.len(),
            forall|j: int| 0 <= j < i ==> a@[j] == b@[j],
    {
        if a[i] != b[i] {
            return false;
        }
    }
    assert(a@ =~= b@);
    true
}

/// Index of the first symbol with the given id.
pub open spec fn symbol_position<P>(syms: Seq<Symbol<P>>, id: Seq<char>) -> Option<nat>
    decreases syms.len(),
{
    if syms.len() == 0 {
        None
    } else if syms[0].id@ == id {
        Some(0)
    } else {
        match symbol_position(syms.drop_first(), id) {
            Some(p) => Some(p + 1),
            None => None,
        }
    }
}

fn symbol_index<P>(syms: &Vec<Symbol<P>>, id: &Vec<char>) -> (r: Option<usize>)
    ensures
        symbol_position(syms@, id@) == (match r { Some(p) => Some(p as nat), None => None }),
        r matches Some(p) ==> p < syms@.len(),
{
    let n = syms.len();
    assert(syms@.skip(0) =~= syms@);
    let mut i: usize = 0;
    while i < n
        invariant
            n == syms@.len(),
            i <= n,
            symbol_position(syms@, id@) == (match symbol_position(syms@.skip(i as int), id@) {
                Some(p) => Some((p + i) as nat),
                None => None::<nat>,
            }),
        decreases n - i,
    {
        assert(syms@.skip(i as int).drop_first() =~= syms@.skip(i + 1));
        let sid = chars_of(syms[i].id.as_str());
        if chars_eq(&sid, id) {
            return Some(i);
        }
        i += 1;
    }
    None
}

impl<P> Default for Document<P> {
    /// The same as `Document::new`.
    fn default() -> (d: Self)
        ensures
            d.wf(),
            d.name@ == "Untitled"@,
            d.layers@.len() == 1,
            d.layers@[0].name@ == "Layer 1"@,
            d.layers@[0].objects@.len() == 0,
            d.active_layer_idx == 0,
            d.width_bits == DEFAULT_WIDTH_BITS,
            d.height_bits == DEFAULT_HEIGHT_BITS,
            d.symbols@.len() == 0,
    {
        Document::new()
    }
}

impl<P> Document<P> {
    /// An empty drawing named "Untitled" with one layer "Layer 1".
    pub fn new() -> (d: Document<P>)
        ensures
            d.wf(),
            d.name@ == "Untitled"@,
            d.layers@.len() == 1,
            d.layers@[0].name@ == "Layer 1"@,
            d.layers@[0].objects@.len() == 0,
            d.active_layer_idx == 0,
            d.width_bits == DEFAULT_WIDTH_BITS,
            d.height_bits == DEFAULT_HEIGHT_BITS,
            d.symbols@.len() == 0,
    {
        let mut layers = Vec::new();
        layers.push(Layer::new("Layer 1"));
        Document {
            name: "Untitled".to_owned(),
            layers,
            active_layer_idx: 0,
            width_bits: DEFAULT_WIDTH_BITS,
            height_bits: DEFAULT_HEIGHT_BITS,
            symbols: Vec::new(),
        }
    }

    /// Repair the invariants that untrusted inputs may break: at least one
    /// layer exists, the active index is in range, and the canvas width and
    /// height are finite and positive (else 1920 × 1080).
    pub fn normalize(&mut self)
        ensures
            final(self).wf(),
            old(self).layers@.len() > 0 ==> final(self).layers@ == old(self).layers@,
            old(self).layers@.len() == 0 ==> final(self).layers@.len() == 1
                && final(self).layers@[0].name@ == "Layer 1"@
                && final(self).layers@[0].objects@.len() == 0,
            final(self).active_layer_idx == (if old(self).active_layer_idx < final(self).layers@.len() {
                old(self).active_layer_idx
            } else {
                (final(self).layers@.len() - 1) as usize
            }),
            final(self).symbols@ == old(self).symbols@,
            final(self).name == old(self).name,
            final(self).width_bits == (if finite_positive(old(self).width_bits) { old(self).width_bits } else { DEFAULT_WIDTH_BITS }),
            final(self).height_bits == (if finite_positive(old(self).height_bits) { old(self).height_bits } else { DEFAULT_HEIGHT_BITS }),
    {
        if self.layers.len() == 0 {
            self.layers.push(Layer::new("Layer 1"));
        }
        if self.active_layer_idx >= self.layers.len() {
            self.active_layer_idx = self.layers.len() - 1;
        }
        if !is_finite_positive(self.width_bits) {
            self.width_bits = DEFAULT_WIDTH_BITS;
        }
        if !is_finite_positive(self.height_bits) {
            self.height_bits = DEFAULT_HEIGHT_BITS;
        }
    }

    pub fn active_layer(&self) -> (l: &Layer<P>)
        requires
            self.wf(),
        ensures
            *l == self.layers@[self.active_layer_idx as int],
    {
        &self.layers[self.active_layer_idx]
    }

    /// Every top-level object with its layer index, layer by layer in
    /// order.
    pub fn all_objects(&self) -> (r: Vec<(usize, &Object<P>)>)
        ensures
            r@.len() == top_level(self.layers@).len(),
            forall|k: int| 0 <= k < r@.len() ==> (#[trigger] r@[k]).0 == top_level(self.layers@)[k].0
                && *r@[k].1 == top_level(self.layers@)[k].1,
    {
        let mut out: Vec<(usize, &Object<P>)> = Vec::new();
        let n = self.layers.len();
        let mut i: usize = 0;
        assert(self.layers@.take(0) =~= Seq::<Layer<P>>::empty());
        while i < n
            invariant
                i <= n,
                n == self.layers@.len(),
                out@.len() == top_level(self.layers@.take(i as int)).len(),
                forall|k: int| 0 <= k < out@.len() ==> (#[trigger] out@[k]).0 == top_level(self.layers@.take(i as int))[k].0
                    && *out@[k].1 == top_level(self.layers@.take(i as int))[k].1,
            decreases n - i,
        {
            let ghost prev = top_level(self.layers@.take(i as int));
            let objs = &self.layers[i].objects;
            let m = objs.len();
            let mut j: usize = 0;
            while j < m
                invariant
                    j <= m,
                    i < n,
                    n == self.layers@.len(),
                    m == objs@.len(),
                    objs == &self.layers@[i as int].objects,
                    out@.len() == prev.len() + j,
                    forall|k: int| 0 <= k < prev.len() ==> (#[trigger] out@[k]).0 == prev[k].0 && *out@[k].1 == prev[k].1,
                    forall|k: int| 0 <= k < j ==> (#[trigger] out@[prev.len() + k]).0 == i && *out@[prev.len() + k].1 == objs@[k],
                decreases m - j,
            {
                out.push((i, &objs[j]));
                j += 1;
            }
            proof {
                let ls = self.layers@.take(i + 1);
                assert(ls.drop_last() =~= self.layers@.take(i as int));
                assert(ls.last() == self.layers@[i as int]);
                let cur = top_level(ls);
                assert forall|k: int| 0 <= k < out@.len() implies (#[trigger] out@[k]).0 == cur[k].0 && *out@[k].1 == cur[k].1 by {
                    if k >= prev.len() {
                        assert(out@[prev.len() + (k - prev.len())] == out@[k]);
                    }
                }
            }
            i += 1;
        }
        assert(self.layers@.take(n as int) =~= self.layers@);
        out
    }

    /// First top-level object (in layer order) with the given id, with its
    /// layer index.
    pub fn object_by_id(&self, id: &str) -> (r: Option<(usize, &Object<P>)>)
        ensures
            match r {
                Some((li, o)) => li < self.layers@.len()
                    && position_of(forests(self.layers@)[li as int], id@) is Some
                    && o == self.layers@[li as int].objects@[position_of(forests(self.layers@)[li as int], id@)->0 as int]
                    && forall|k: int| 0 <= k < li ==> position_of(#[trigger] forests(self.layers@)[k], id@) is None,
                None => forall|k: int| 0 <= k < self.layers@.len() ==> position_of(#[trigger] forests(self.layers@)[k], id@) is None,
            },
    {
        let n = self.layers.len();
        for i in 0..n
            invariant
                n == self.layers@.len(),
                forall|k: int| 0 <= k < i ==> position_of(#[trigger] forests(self.layers@)[k], id@) is None,
        {
            if let Some(p) = position_in(&self.layers[i].objects, id) {
                return Some((i, &self.layers[i].objects[p]));
            }
        }
        None
    }

    /// Symbol lookup; leading `#` characters of `id` are ignored.
    pub fn symbol_by_id(&self, id: &str) -> (r: Option<&Symbol<P>>)
        ensures
            match symbol_position(self.symbols@, strip_hashes(id@)) {
                Some(p) => r == Some(&self.symbols@[p as int]),
                None => r is None,
            },
    {
        let clean = strip_hashes_exec(id);
        match symbol_index(&self.symbols, &clean) {
            Some(p) => Some(&self.symbols[p]),
            None => None,
        }
    }

    /// Mutable symbol lookup; leading `#` characters of `id` are ignored.
    pub fn symbol_by_id_mut(&mut self, id: &str) -> (r: Option<&mut Symbol<P>>)
        ensures
            match symbol_position(old(self).symbols@, strip_hashes(id@)) {
                Some(p) => r is Some && *r->0 == old(self).symbols@[p as int]
                    && final(self).symbols@ == old(self).symbols@.update(p as int, *final(r->0))
                    && final(self).layers == old(self).layers
                    && final(self).active_layer_idx == old(self).active_layer_idx
                    && final(self).name == old(self).name,
                None => r is None && *final(self) == *old(self),
            },
    {
        let clean = strip_hashes_exec(id);
        match symbol_index(&self.symbols, &clean) {
            Some(p) => Some(&mut self.symbols[p]),
            None => None,
        }
    }

    /// The active layer, for editing.
    pub fn active_layer_mut(&mut self) -> (l: &mut Layer<P>)
        requires
            old(self).wf(),
        ensures
            *l == old(self).layers@[old(self).active_layer_idx as int],
            final(self).layers@ == old(self).layers@.update(old(self).active_layer_idx as int, *final(l)),
            final(self).active_layer_idx == old(self).active_layer_idx,
            final(self).symbols == old(self).symbols,
            final(self).name == old(self).name,
    {
        let idx = self.active_layer_idx;
        &mut self.layers[idx]
    }

    /// Insert a symbol, replacing the first one with the same id.
    pub fn add_symbol(&mut self, symbol: Symbol<P>)
        ensures
            final(self).layers == old(self).layers,
            final(self).name == old(self).name,
            final(self).active_layer_idx == old(self).active_layer_idx,
            final(self).symbols@ == (match symbol_position(old(self).symbols@, symbol.id@) {
                Some(p) => old(self).symbols@.update(p as int, symbol),
                None => old(self).symbols@.push(symbol),
            }),
    {
        let key = chars_of(symbol.id.as_str());
        match symbol_index(&self.symbols, &key) {
            Some(p) => { self.symbols.set(p, symbol); }
            None => { self.symbols.push(symbol); }
        }
    }

    /// Swap layer `idx` with the one above it, keeping the active layer
    /// selected.
    pub fn move_layer_up(&mut self, idx: usize)
        ensures
            final(self).symbols == old(self).symbols,
            if idx + 1 < old(self).layers@.len() {
                &&& final(self).layers@ == old(self).layers@.update(idx as int, old(self).layers@[idx + 1]).update(idx + 1, old(self).layers@[idx as int])
                &&& final(self).active_layer_idx == (if old(self).active_layer_idx == idx {
                        (idx + 1) as usize
                    } else if old(self).active_layer_idx == idx + 1 {
                        idx
                    } else {
                        old(self).active_layer_idx
                    })
            } else {
                final(self).layers == old(self).layers && final(self).active_layer_idx == old(self).active_layer_idx
            },
    {
        if idx < self.layers.len() && idx + 1 < self.layers.len() {
            swap_adjacent(&mut self.layers, idx);
            if self.active_layer_idx == idx {
                self.active_layer_idx = idx + 1;
            } else if self.active_layer_idx == idx + 1 {
                self.active_layer_idx = idx;
            }
        }
    }

    /// Swap layer `idx` with the one below it, keeping the active layer
    /// selected.
    pub fn move_layer_down(&mut self, idx: usize)
        ensures
            final(self).symbols == old(self).symbols,
            if 0 < idx < old(self).layers@.len() {
                &&& final(self).layers@ == old(self).layers@.update(idx - 1, old(self).layers@[idx as int]).update(idx as int, old(self).layers@[idx - 1])
                &&& final(self).active_layer_idx == (if old(self).active_layer_idx == idx {
                        (idx - 1) as usize
                    } else if old(self).active_layer_idx == idx - 1 {
                        idx
                    } else {
                        old(self).active_layer_idx
                    })
            } else {
                final(self).layers == old(self).layers && final(self).active_layer_idx == old(self).active_layer_idx
            },
    {
        if idx > 0 && idx < self.layers.len() {
            swap_adjacent(&mut self.layers, idx - 1);
            if self.active_layer_idx == idx {
                self.active_layer_idx = idx - 1;
            } else if self.active_layer_idx == idx - 1 {
                self.active_layer_idx = idx;
            }
        }
    }

    /// Swap object `obj_idx` of a layer with the one above it.
    pub fn move_object_up(&mut self, layer_idx: usize, obj_idx: usize)
        ensures
            final(self).symbols == old(self).symbols,
            final(self).active_layer_idx == old(self).active_layer_idx,
            final(self).layers@.len() == old(self).layers@.len(),
            if layer_idx < old(self).layers@.len() && obj_idx + 1 < old(self).layers@[layer_idx as int].objects@.len() {
                let objs = old(self).layers@[layer_idx as int].objects@;
                &&& final(self).layers@[layer_idx as int].objects@ == objs.update(obj_idx as int, objs[obj_idx + 1]).update(obj_idx + 1, objs[obj_idx as int])
                &&& forall|k: int| 0 <= k < old(self).layers@.len() && k != layer_idx ==> final(self).layers@[k] == old(self).layers@[k]
                &&& final(self).layers@[layer_idx as int].id == old(self).layers@[layer_idx as int].id
            } else {
                final(self).layers == old(self).layers
            },
    {
        if layer_idx < self.layers.len() && obj_idx < self.layers[layer_idx].objects.len()
            && obj_idx + 1 < self.layers[layer_idx].objects.len() {
            swap_adjacent(&mut self.layers[layer_idx].objects, obj_idx);
        }
    }

    /// Swap object `obj_idx` of a layer with the one below it.
    pub fn move_object_down(&mut self, layer_idx: usize, obj_idx: usize)
        ensures
            final(self).symbols == old(self).symbols,
            final(self).active_layer_idx == old(self).active_layer_idx,
            final(self).layers@.len() == old(self).layers@.len(),
            if layer_idx < old(self).layers@.len() && 0 < obj_idx < old(self).layers@[layer_idx as int].objects@.len() {
                let objs = old(self).layers@[layer_idx as int].objects@;
                &&& final(self).layers@[layer_idx as int].objects@ == objs.update(obj_idx - 1, objs[obj_idx as int]).update(obj_idx as int, objs[obj_idx - 1])
                &&& forall|k: int| 0 <= k < old(self).layers@.len() && k != layer_idx ==> final(self).layers@[k] == old(self).layers@[k]
                &&& final(self).layers@[layer_idx as int].id == old(self).layers@[layer_idx as int].id
            } else {
                final(self).layers == old(self).layers
            },
    {
        if layer_idx < self.layers.len() && obj_idx > 0 && obj_idx < self.layers[layer_idx].objects.len() {
            swap_adjacent(&mut self.layers[layer_idx].objects, obj_idx - 1);
        }
    }

    /// Move an object to the top of another layer.
    pub fn move_object_to_layer(&mut self, from_layer: usize, obj_idx: usize, to_layer: usize)
        ensures
            final(self).symbols == old(self).symbols,
            final(self).active_layer_idx == old(self).active_layer_idx,
            final(self).layers@.len() == old(self).layers@.len(),
            if from_layer < old(self).layers@.len() && to_layer < old(self).layers@.len()
                && obj_idx < old(self).layers@[from_layer as int].objects@.len() {
                let fs = forests(old(self).layers@);
                let moved = fs[from_layer as int][obj_idx as int];
                let taken = fs.update(from_layer as int, fs[from_layer as int].remove(obj_idx as int));
                forests(final(self).layers@) == taken.update(to_layer as int, taken[to_layer as int].push(moved))
            } else {
                final(self).layers == old(self).layers
            },
    {
        if from_layer < self.layers.len() && to_layer < self.layers.len()
            && obj_idx < self.layers[from_layer].objects.len() {
            let ghost l0 = self.layers@;
            let ghost fs = forests(l0);
            proof { lemma_models(l0[from_layer as int].objects@); lemma_models_remove(l0[from_layer as int].objects@, obj_idx as int); }
            let obj = self.layers[from_layer].objects.remove(obj_idx);
            let ghost l1 = self.layers@;
            let ghost taken = fs.update(from_layer as int, fs[from_layer as int].remove(obj_idx as int));
            assert(forests(l1) =~= taken);
            proof { lemma_models_push(l1[to_layer as int].objects@, obj); }
            self.layers[to_layer].objects.push(obj);
            assert(forests(self.layers@) =~= taken.update(to_layer as int, taken[to_layer as int].push(obj.model())));
        }
    }
}


/// Index path (through nested children) to the object that `find_model`
/// reports.
pub open spec fn find_path<P>(objs: Seq<ObjectModel<P>>, id: Seq<char>, depth: nat) -> Option<Seq<nat>>
    decreases 129 - depth, objs.len(),
{
    if depth > 128 || objs.len() == 0 {
        None
    } else if objs[0].id == id {
        Some(seq![0nat])
    } else {
        match find_path(objs[0].kids, id, depth + 1) {
            Some(p) => Some(seq![0nat] + p),
            None => match find_path(objs.drop_first(), id, depth) {
                Some(p) => Some(p.update(0, p[0] + 1)),
                None => None,
            },
        }
    }
}

/// The object at an index path.
pub open spec fn at_path<P>(objs: Seq<ObjectModel<P>>, path: Seq<nat>) -> ObjectModel<P>
    decreases path.len(),
{
    if path.len() <= 1 {
        objs[path[0] as int]
    } else {
        at_path(objs[path[0] as int].kids, path.drop_first())
    }
}

/// The forest with the object at an index path replaced.
pub open spec fn replace_at<P>(objs: Seq<ObjectModel<P>>, path: Seq<nat>, new: ObjectModel<P>) -> Seq<ObjectModel<P>>
    decreases path.len(),
{
    if path.len() <= 1 {
        objs.update(path[0] as int, new)
    } else {
        objs.update(path[0] as int, with_kids(objs[path[0] as int], replace_at(objs[path[0] as int].kids, path.drop_first(), new)))
    }
}

/// Every found path is valid and leads to the found object.
pub open spec fn path_ok<P>(objs: Seq<ObjectModel<P>>, path: Seq<nat>) -> bool
    decreases path.len(),
{
    path.len() >= 1 && path[0] < objs.len() && (path.len() > 1 ==> path_ok(objs[path[0] as int].kids, path.drop_first()))
}

/// Putting back the object that a valid path leads to changes nothing.
pub proof fn lemma_replace_same<P>(objs: Seq<ObjectModel<P>>, path: Seq<nat>)
    requires
        path_ok(objs, path),
    ensures
        replace_at(objs, path, at_path(objs, path)) == objs,
    decreases path.len(),
{
    if path.len() > 1 {
        let o = objs[path[0] as int];
        lemma_replace_same(o.kids, path.drop_first());
        assert(with_kids(o, o.kids) == o);
    }
    assert(replace_at(objs, path, at_path(objs, path)) =~= objs);
}

pub proof fn lemma_find_path<P>(objs: Seq<ObjectModel<P>>, id: Seq<char>, depth: nat)
    ensures
        find_path(objs, id, depth) is Some <==> find_model(objs, id, depth) is Some,
        find_path(objs, id, depth) matches Some(p) ==> path_ok(objs, p) && find_model(objs, id, depth) == Some(at_path(objs, p)),
    decreases 129 - depth, objs.len(),
{
    if depth > 128 || objs.len() == 0 {
    } else if objs[0].id == id {
    } else {
        lemma_find_path(objs[0].kids, id, depth + 1);
        lemma_find_path(objs.drop_first(), id, depth);
        match find_path(objs[0].kids, id, depth + 1) {
            Some(p) => {
                let q = seq![0nat] + p;
                assert(q.drop_first() =~= p);
            },
            None => match find_path(objs.drop_first(), id, depth) {
                Some(p) => {
                    let q = p.update(0, p[0] + 1);
                    assert(q.drop_first() =~= p.drop_first());
                    assert(objs[q[0] as int] == objs.drop_first()[p[0] as int]);
                },
                None => {},
            },
        }
    }
}

fn find_in_objects_mut_depth<'a, P>(objs: &'a mut Vec<Object<P>>, key: &String, depth: usize) -> (r: Option<&'a mut Object<P>>)
    ensures
        r is Some ==> find_path(models(old(objs)@), key@, depth as nat) is Some,
        r matches Some(o) ==> find_model(models(old(objs)@), key@, depth as nat) == Some((*o).model()),
        r matches Some(o) ==> models(final(objs)@) == replace_at(models(old(objs)@),
            find_path(models(old(objs)@), key@, depth as nat)->0, (*final(o)).model()),
        r is None ==> find_path(models(old(objs)@), key@, depth as nat) is None,
        r is None ==> models(final(objs)@) == models(old(objs)@),
    decreases 129 - depth,
{
    proof { lemma_find_path(models(objs@), key@, depth as nat); }
    if depth > MAX_NESTING_DEPTH {
        return None;
    }
    let ghost orig = models(objs@);
    proof { lemma_models(objs@); }
    assert(orig.skip(0) =~= orig);
    let n = objs.len();
    let mut i: usize = 0;
    while i < n
        invariant
            n == objs@.len(),
            i <= n,
            depth <= 128,
            orig == models(objs@),
            orig == models(old(objs)@),
            objs@ == old(objs)@,
            find_model(orig, key@, depth as nat) == find_model(orig.skip(i as int), key@, depth as nat),
            find_path(orig, key@, depth as nat) == (match find_path(orig.skip(i as int), key@, depth as nat) {
                Some(p) => Some(p.update(0, (p[0] + i) as nat)),
                None => None,
            }),
        decreases n - i,
    {
        proof { lemma_models(objs@); }
        assert(orig.skip(i as int).drop_first() =~= orig.skip(i + 1));
        assert(orig.skip(i as int)[0] == objs@[i as int].model());
        if objs[i].id == *key {
            assert(find_path(orig.skip(i as int), key@, depth as nat) == Some(seq![0nat]));
            let o = &mut objs[i];
            proof { lemma_models_update(old(objs)@, i as int, *final(o)); }
            assert(seq![0nat].update(0, i as nat) =~= seq![i as nat]);
            assert(find_path(orig, key@, depth as nat) == Some(seq![i as nat]));
            assert(replace_at(orig, seq![i as nat], (*final(o)).model()) == orig.update(i as int, (*final(o)).model()));
            assert(at_path(orig, seq![i as nat]) == orig[i as int]);
            assert(*o == old(objs)@[i as int]);
            assert(orig[i as int] == old(objs)@[i as int].model());
            assert(orig[i as int] == (*o).model());
            assert(find_model(orig, key@, depth as nat) == Some((*o).model()));
            return Some(o);
        }
        let inside = match &objs[i].nesting {
            Nesting::Group(c) => find_in_objects_depth(c, key.as_str(), depth + 1).is_some(),
            Nesting::ClippingMask(c) => find_in_objects_depth(c, key.as_str(), depth + 1).is_some(),
            Nesting::Leaf => false,
        };
        assert(objs@[i as int].model().kids == nest_models(objs@[i as int].nesting));
        proof { lemma_find_path(orig[i as int].kids, key@, (depth + 1) as nat); }
        if inside {
            let ghost p = find_path(orig[i as int].kids, key@, (depth + 1) as nat)->0;
            assert(find_path(orig.skip(i as int), key@, depth as nat) == Some(seq![0nat] + p));
            let ghost full = (seq![0nat] + p).update(0, i as nat);
            assert(full.drop_first() =~= p);
            assert(full[0] == i);
            assert(full.len() > 1);
            let o = &mut objs[i];
            proof { lemma_models_update(old(objs)@, i as int, *final(o)); }
            match &mut o.nesting {
                Nesting::Group(c) => {
                    let r = find_in_objects_mut_depth(c, key, depth + 1);
                    proof {
                        if r is Some {
                            let xm = (*final(r->0)).model();
                            assert(replace_at(orig, full, xm) == orig.update(i as int, with_kids(orig[i as int], replace_at(orig[i as int].kids, p, xm))));
                        }
                    }
                    return r;
                }
                Nesting::ClippingMask(c) => {
                    let r = find_in_objects_mut_depth(c, key, depth + 1);
                    proof {
                        if r is Some {
                            let xm = (*final(r->0)).model();
                            assert(replace_at(orig, full, xm) == orig.update(i as int, with_kids(orig[i as int], replace_at(orig[i as int].kids, p, xm))));
                        }
                    }
                    return r;
                }
                Nesting::Leaf => {
                    return None;
                }
            }
        }
        proof {
            lemma_find_path(orig.skip(i + 1), key@, depth as nat);
            assert(find_model(orig[i as int].kids, key@, (depth + 1) as nat) is None);
            if let Some(q) = find_path(orig.skip(i + 1), key@, depth as nat) {
                assert(find_path(orig.skip(i as int), key@, depth as nat) == Some(q.update(0, (q[0] + 1) as nat)));
                assert(q.update(0, (q[0] + 1) as nat).update(0, (q[0] + 1 + i) as nat) =~= q.update(0, (q[0] + (i + 1)) as nat));
            }
        }
        i += 1;
    }
    None
}


pub proof fn lemma_forests_update<P>()
    ensures
        forall|ls: Seq<Layer<P>>, i: int, l: Layer<P>| 0 <= i < ls.len() ==>
            #[trigger] forests(ls.update(i, l)) == forests(ls).update(i, models(l.objects@)),
{
    assert forall|ls: Seq<Layer<P>>, i: int, l: Layer<P>| 0 <= i < ls.len() implies
        #[trigger] forests(ls.update(i, l)) == forests(ls).update(i, models(l.objects@)) by {
        assert(forests(ls.update(i, l)) =~= forests(ls).update(i, models(l.objects@)));
    }
}

/// The layer index and index path of the object that `doc_find` reports.
pub open spec fn doc_find_loc<P>(fs: Seq<Seq<ObjectModel<P>>>, id: Seq<char>) -> Option<(nat, Seq<nat>)>
    decreases fs.len(),
{
    if fs.len() == 0 {
        None
    } else {
        match find_path(fs[0], id, 0) {
            Some(p) => Some((0nat, p)),
            None => match doc_find_loc(fs.drop_first(), id) {
                Some((li, p)) => Some((li + 1, p)),
                None => None,
            },
        }
    }
}

/// `doc_find` and `doc_find_loc` agree: the found object is the one at
/// the found location.
pub proof fn lemma_doc_find_loc<P>(fs: Seq<Seq<ObjectModel<P>>>, id: Seq<char>)
    ensures
        doc_find_loc(fs, id) is Some <==> doc_find(fs, id) is Some,
        doc_find_loc(fs, id) matches Some(loc) ==> loc.0 < fs.len() && path_ok(fs[loc.0 as int], loc.1)
            && doc_find(fs, id) == Some(at_path(fs[loc.0 as int], loc.1)),
    decreases fs.len(),
{
    if fs.len() > 0 {
        lemma_find_path(fs[0], id, 0);
        lemma_doc_find_loc(fs.drop_first(), id);
        if find_path(fs[0], id, 0) is None {
            if let Some(loc) = doc_find_loc(fs.drop_first(), id) {
                assert(fs.drop_first()[loc.0 as int] == fs[(loc.0 + 1) as int]);
            }
        }
    }
}

impl<P> Document<P> {
    /// Mutable deep lookup; the document afterwards holds the edited object
    /// at the same place.
    pub fn find_object_mut(&mut self, id: &str) -> (r: Option<&mut Object<P>>)
        ensures
            final(self).active_layer_idx == old(self).active_layer_idx,
            final(self).symbols == old(self).symbols,
            final(self).name == old(self).name,
            final(self).width_bits == old(self).width_bits,
            final(self).height_bits == old(self).height_bits,
            metas(final(self).layers@) == metas(old(self).layers@),
            final(self).layers@.len() == old(self).layers@.len(),
            r is Some <==> doc_find_loc(forests(old(self).layers@), id@) is Some,
            r matches Some(o) ==> doc_find(forests(old(self).layers@), id@) == Some((*o).model()),
            r matches Some(o) ==> ({
                let (li, path) = doc_find_loc(forests(old(self).layers@), id@)->0;
                forests(final(self).layers@) == forests(old(self).layers@).update(li as int,
                    replace_at(forests(old(self).layers@)[li as int], path, (*final(o)).model()))
            }),
            r is None ==> forests(final(self).layers@) == forests(old(self).layers@),
    {
        let key = id.to_owned();
        let n = self.layers.len();
        let ghost fs = forests(self.layers@);
        assert(fs.skip(0) =~= fs);
        let mut i: usize = 0;
        while i < n
            invariant
                n == self.layers@.len(),
                i <= n,
                key@ == id@,
                fs == forests(self.layers@),
                fs == forests(old(self).layers@),
                self.layers@ == old(self).layers@,
                self.active_layer_idx == old(self).active_layer_idx,
                self.symbols == old(self).symbols,
                self.name == old(self).name,
                self.width_bits == old(self).width_bits,
                self.height_bits == old(self).height_bits,
                doc_find(fs, id@) == doc_find(fs.skip(i as int), id@),
                doc_find_loc(fs, id@) == (match doc_find_loc(fs.skip(i as int), id@) {
                    Some((li, p)) => Some(((li + i) as nat, p)),
                    None => None,
                }),
            decreases n - i,
        {
            assert(fs.skip(i as int).drop_first() =~= fs.skip(i + 1));
            assert(fs.skip(i as int)[0] == models(self.layers@[i as int].objects@));
            proof { lemma_find_path(fs[i as int], id@, 0); }
            if find_in_objects_depth(&self.layers[i].objects, id, 0).is_some() {
                proof { lemma_forests_update::<P>(); }
                let r = find_in_objects_mut_depth(&mut self.layers[i].objects, &key, 0);
                return r;
            }
            i += 1;
        }
        None
    }
}


impl<P> Keyed for Layer<P> {
    open spec fn key(&self) -> Seq<char> {
        self.id@
    }

    fn key_string(&self) -> (r: &String) {
        &self.id
    }
}

impl<P> Keyed for Object<P> {
    open spec fn key(&self) -> Seq<char> {
        self.id@
    }

    fn key_string(&self) -> (r: &String) {
        &self.id
    }
}


/// `b` is a copy of `a`: same identity, kind and shape, every payload a
/// clone of the corresponding one.
pub open spec fn clone_of<P: Clone>(a: ObjectModel<P>, b: ObjectModel<P>) -> bool
    decreases a, 1nat,
{
    &&& a.id == b.id
    &&& a.name == b.name
    &&& a.kind == b.kind
    &&& cloned(a.data, b.data)
    &&& clones_of(a.kids, b.kids)
}

/// Pointwise `clone_of`.
pub open spec fn clones_of<P: Clone>(s: Seq<ObjectModel<P>>, t: Seq<ObjectModel<P>>) -> bool
    decreases s, 0nat,
{
    s.len() == t.len() && (s.len() > 0 ==> clone_of(s[0], t[0]) && clones_of(s.drop_first(), t.drop_first()))
}

impl<P: Clone> Object<P> {
    /// Deep copy.
    pub fn duplicate(&self) -> (r: Object<P>)
        ensures
            clone_of(self.model(), r.model()),
        decreases self,
    {
        let nesting = match &self.nesting {
            Nesting::Leaf => Nesting::Leaf,
            Nesting::Group(c) => Nesting::Group(duplicate_all(c)),
            Nesting::ClippingMask(c) => Nesting::ClippingMask(duplicate_all(c)),
        };
        Object { id: self.id.clone(), name: self.name.clone(), data: self.data.clone(), nesting }
    }
}

/// Deep copy of a sequence of objects.
pub fn duplicate_all<P: Clone>(objs: &Vec<Object<P>>) -> (r: Vec<Object<P>>)
    ensures
        clones_of(models(objs@), models(r@)),
    decreases objs@,
{
    let mut out: Vec<Object<P>> = Vec::new();
    let n = objs.len();
    proof { lemma_models(objs@); }
    for i in 0..n
        invariant
            n == objs@.len(),
            out@.len() == i,
            forall|k: int| 0 <= k < i ==> clone_of(#[trigger] objs@[k].model(), out@[k].model()),
    {
        assert(decreases_to!(objs@ => objs@[i as int]));
        let d = objs[i].duplicate();
        out.push(d);
    }
    proof {
        lemma_models(objs@);
        lemma_models(out@);
        lemma_clones_of(models(objs@), models(out@));
    }
    out
}

pub proof fn lemma_clones_of<P: Clone>(s: Seq<ObjectModel<P>>, t: Seq<ObjectModel<P>>)
    requires
        s.len() == t.len(),
        forall|k: int| 0 <= k < s.len() ==> clone_of(#[trigger] s[k], t[k]),
    ensures
        clones_of(s, t),
    decreases s.len(),
{
    if s.len() > 0 {
        assert(clone_of(s[0], t[0]));
        lemma_clones_of(s.drop_first(), t.drop_first());
    }
}


/// `b` is a copy of layer `a`.
pub open spec fn layer_clone_of<P: Clone>(a: Layer<P>, b: Layer<P>) -> bool {
    &&& a.id@ == b.id@
    &&& a.name@ == b.name@
    &&& a.visible == b.visible
    &&& a.locked == b.locked
    &&& a.opacity_bits == b.opacity_bits
    &&& clones_of(models(a.objects@), models(b.objects@))
}

impl<P: Clone> Layer<P> {
    /// Deep copy.
    pub fn duplicate(&self) -> (r: Layer<P>)
        ensures
            layer_clone_of(*self, r),
    {
        Layer {
            id: self.id.clone(),
            name: self.name.clone(),
            objects: duplicate_all(&self.objects),
            visible: self.visible,
            locked: self.locked,
            opacity_bits: self.opacity_bits,
        }
    }
}

} // verus!
