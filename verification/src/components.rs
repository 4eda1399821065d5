//! Components: turning a selection into a reusable symbol with one
//! instance in place, and making further instances of a symbol.
//! The payload of a new group or instance (its transform and styling) is
//! supplied by the caller; the instance payload is made from the
//! `#`-reference to the symbol.
use vstd::prelude::*;
use crate::text::{chars_of, push_char, push_str};
use crate::document::{
    Document, Object, ObjectModel, Symbol, Nesting, NestKind, forests, doc_remove, models, lemma_models,
    lemma_models_push, lemma_doc_remove_none, symbol_position, strip_hashes, is_uuid_v4_text, new_uuid_string,
};

verus! {

/// The texts of a list of strings.
pub open spec fn texts(ids: Seq<String>) -> Seq<Seq<char>> {
    ids.map_values(|s: String| s@)
}

/// Removing each id in turn: the forests afterwards and the removed
/// objects, in the order of removal.
pub open spec fn remove_each<P>(fs: Seq<Seq<ObjectModel<P>>>, ids: Seq<Seq<char>>) -> (Seq<Seq<ObjectModel<P>>>, Seq<ObjectModel<P>>)
    decreases ids.len(),
{
    if ids.len() == 0 {
        (fs, Seq::empty())
    } else {
        let prev = remove_each(fs, ids.drop_last());
        let r = doc_remove(prev.0, ids.last());
        (r.0, match r.1 {
            Some(o) => prev.1.push(o),
            None => prev.1,
        })
    }
}

/// When nothing was removed, the forests are unchanged.
pub proof fn lemma_remove_each_none<P>(fs: Seq<Seq<ObjectModel<P>>>, ids: Seq<Seq<char>>)
    ensures
        remove_each(fs, ids).1.len() == 0 ==> remove_each(fs, ids).0 == fs,
    decreases ids.len(),
{
    if ids.len() > 0 {
        lemma_remove_each_none(fs, ids.drop_last());
        let prev = remove_each(fs, ids.drop_last());
        lemma_doc_remove_none(prev.0, ids.last());
    }
}

/// The identifier of a new component: `comp_` and the first eight
/// characters of a fresh UUID.
pub open spec fn is_component_id(id: Seq<char>) -> bool {
    exists|u: Seq<char>| #[trigger] is_uuid_v4_text(u) && id == "comp_"@ + u.take(8)
}

/// The master object of a component made of `removed`: the object itself
/// when there is one, else a group named "Component Master" holding them.
pub open spec fn is_master<P>(m: ObjectModel<P>, removed: Seq<ObjectModel<P>>, group_data: P) -> bool {
    if removed.len() == 1 {
        m == removed[0]
    } else {
        &&& is_uuid_v4_text(m.id)
        &&& m.name == "Component Master"@
        &&& m.data == group_data
        &&& m.kind == NestKind::Group
        &&& m.kids == removed
    }
}

/// The symbols after `add_symbol`: the first one with the same id is
/// replaced, or the symbol is appended.
pub open spec fn symbols_with<P>(ss: Seq<Symbol<P>>, s: Symbol<P>) -> Seq<Symbol<P>> {
    match symbol_position(ss, s.id@) {
        Some(p) => ss.update(p as int, s),
        None => ss.push(s),
    }
}

proof fn lemma_symbol_position_bound<P>(ss: Seq<Symbol<P>>, id: Seq<char>)
    ensures
        symbol_position(ss, id) matches Some(p) ==> p < ss.len() && ss[p as int].id@ == id
            && forall|k: int| 0 <= k < p ==> (#[trigger] ss[k]).id@ != id,
        symbol_position(ss, id) is None ==> forall|k: int| 0 <= k < ss.len() ==> (#[trigger] ss[k]).id@ != id,
    decreases ss.len(),
{
    if ss.len() > 0 {
        let rest = ss.drop_first();
        lemma_symbol_position_bound(rest, id);
        if ss[0].id@ != id {
            match symbol_position(rest, id) {
                Some(q) => {
                    assert(ss[(q + 1) as int] == rest[q as int]);
                    assert forall|k: int| 0 <= k < q + 1 implies (#[trigger] ss[k]).id@ != id by {
                        if k > 0 {
                            assert(ss[k] == rest[k - 1]);
                        }
                    }
                },
                None => {
                    assert forall|k: int| 0 <= k < ss.len() implies (#[trigger] ss[k]).id@ != id by {
                        if k > 0 {
                            assert(ss[k] == rest[k - 1]);
                        }
                    }
                },
            }
        }
    }
}

proof fn lemma_symbol_position_first<P>(ss: Seq<Symbol<P>>, id: Seq<char>, p: int)
    requires
        0 <= p < ss.len(),
        ss[p].id@ == id,
        forall|k: int| 0 <= k < p ==> (#[trigger] ss[k]).id@ != id,
    ensures
        symbol_position(ss, id) == Some(p as nat),
    decreases p,
{
    if p > 0 {
        lemma_symbol_position_first(ss.drop_first(), id, p - 1);
    }
}

/// After `add_symbol`, looking the symbol's id up finds that very symbol.
pub proof fn law_added_symbol_is_found<P>(ss: Seq<Symbol<P>>, s: Symbol<P>)
    ensures
        symbol_position(symbols_with(ss, s), s.id@) matches Some(p)
            && symbols_with(ss, s)[p as int] == s,
{
    lemma_symbol_position_bound(ss, s.id@);
    match symbol_position(ss, s.id@) {
        Some(p) => {
            let t = ss.update(p as int, s);
            assert forall|k: int| 0 <= k < p implies (#[trigger] t[k]).id@ != s.id@ by {
                assert(t[k] == ss[k]);
            }
            lemma_symbol_position_first(t, s.id@, p as int);
        },
        None => {
            let t = ss.push(s);
            assert forall|k: int| 0 <= k < ss.len() implies (#[trigger] t[k]).id@ != s.id@ by {
                assert(t[k] == ss[k]);
            }
            lemma_symbol_position_first(t, s.id@, ss.len() as int);
        },
    }
}

/// `o` is a fresh instance object of a symbol with id `sid`, named `name`,
/// whose payload the caller made from the reference `#sid`.
pub open spec fn is_instance<P, F: FnOnce(String) -> P>(o: ObjectModel<P>, sid: Seq<char>, name: Seq<char>, make: F) -> bool {
    &&& is_uuid_v4_text(o.id)
    &&& o.name == name
    &&& o.kind == NestKind::Leaf
    &&& o.kids.len() == 0
    &&& exists|h: String| h@ == "#"@ + sid && #[trigger] make.ensures((h,), o.data)
}

fn component_id() -> (r: String)
    ensures
        is_component_id(r@),
{
    let u = new_uuid_string();
    let cs = chars_of(u.as_str());
    let mut s = "comp_".to_string();
    let mut i: usize = 0;
    while i < 8
        invariant
            i <= 8,
            cs@ == u@,
            is_uuid_v4_text(u@),
            s@ == "comp_"@ + cs@.take(i as int),
        decreases 8 - i,
    {
        push_char(&mut s, cs[i]);
        assert(cs@.take(i as int).push(cs@[i as int]) =~= cs@.take(i + 1));
        assert("comp_"@ + cs@.take(i as int).push(cs@[i as int]) =~= ("comp_"@ + cs@.take(i as int)).push(cs@[i as int]));
        i += 1;
    }
    assert(is_uuid_v4_text(u@) && s@ == "comp_"@ + u@.take(8));
    s
}

impl<P> Document<P> {
    /// Move the objects with the given ids (each removed wherever it sits)
    /// into a new component symbol and put one instance of it on the active
    /// layer. Returns the symbol id, or `None` when no id was given or none
    /// was found (the document is then unchanged).
    pub fn create_component_from_selection<F: FnOnce(String) -> P>(&mut self, ids: &[String], group_data: P, instance_data: F) -> (r: Option<String>)
        requires
            old(self).wf(),
            forall|h: String| #[trigger] instance_data.requires((h,)),
        ensures
            final(self).wf(),
            final(self).active_layer_idx == old(self).active_layer_idx,
            final(self).name == old(self).name,
            r is None <==> (ids@.len() == 0 || remove_each(forests(old(self).layers@), texts(ids@)).1.len() == 0),
            r is None ==> final(self).symbols == old(self).symbols && forests(final(self).layers@) == forests(old(self).layers@),
            r matches Some(sid) ==> ({
                let removed = remove_each(forests(old(self).layers@), texts(ids@));
                let active = old(self).active_layer_idx as int;
                &&& is_component_id(sid@)
                &&& exists|sym: Symbol<P>| {
                    &&& final(self).symbols@ == #[trigger] symbols_with(old(self).symbols@, sym)
                    &&& sym.id@ == sid@
                    &&& sym.name@ == sym.object.name@
                    &&& sym.use_count == 1
                    &&& is_master(sym.object.model(), removed.1, group_data)
                    &&& exists|inst: ObjectModel<P>| #[trigger] is_instance(inst, sid@, sym.name@, instance_data)
                        && forests(final(self).layers@) == removed.0.update(active, removed.0[active].push(inst))
                }
            }),
    {
        let ghost fs = forests(self.layers@);
        let ghost keys = texts(ids@);
        if ids.len() == 0 {
            return None;
        }
        let mut target: Vec<Object<P>> = Vec::new();
        let mut i: usize = 0;
        assert(keys.take(0) =~= Seq::<Seq<char>>::empty());
        while i < ids.len()
            invariant
                i <= ids@.len(),
                keys == texts(ids@),
                self.wf(),
                self.active_layer_idx == old(self).active_layer_idx,
                self.name == old(self).name,
                self.symbols == old(self).symbols,
                self.layers@.len() == old(self).layers@.len(),
                fs == forests(old(self).layers@),
                forests(self.layers@) == remove_each(fs, keys.take(i as int)).0,
                models(target@) == remove_each(fs, keys.take(i as int)).1,
            decreases ids@.len() - i,
        {
            let ghost before = target@;
            let found = self.remove_object(ids[i].as_str());
            proof {
                assert(keys.take(i + 1).drop_last() =~= keys.take(i as int));
                assert(keys.take(i + 1).last() == ids@[i as int]@);
            }
            match found {
                Some(obj) => {
                    proof { lemma_models_push(before, obj); }
                    target.push(obj);
                },
                None => {},
            }
            i += 1;
        }
        proof {
            assert(keys.take(ids@.len() as int) =~= keys);
            lemma_remove_each_none(fs, keys);
            lemma_models(target@);
        }
        if target.len() == 0 {
            return None;
        }
        let ghost removed = remove_each(fs, keys);
        let symbol_id = component_id();
        let master = if target.len() == 1 {
            target.remove(0)
        } else {
            Object::new_group("Component Master", target, group_data)
        };
        proof {
            reveal_strlit("Component Master");
        }
        assert(is_master(master.model(), removed.1, group_data));
        let symbol_name = master.name.clone();
        let mut href = String::new();
        push_char(&mut href, '#');
        push_str(&mut href, symbol_id.as_str());
        assert(href@ =~= "#"@ + symbol_id@) by {
            reveal_strlit("#");
        }
        let ghost h = href;
        let data = instance_data(href);
        assert(instance_data.ensures((h,), data));
        let sym = Symbol { id: symbol_id.clone(), name: symbol_name.clone(), object: master, use_count: 1 };
        let ghost gs = sym;
        let ghost mid = forests(self.layers@);
        assert(mid == removed.0);
        self.add_symbol(sym);
        let inst = Object { id: new_uuid_string(), name: symbol_name, data, nesting: Nesting::Leaf };
        let ghost im = inst.model();
        assert(is_uuid_v4_text(im.id));
        assert(im.kind == NestKind::Leaf);
        assert(im.data == data);
        assert(h@ == "#"@ + symbol_id@);
        assert(instance_data.ensures((h,), im.data));
        assert(im.name == sym.name@);
        assert(is_instance(im, symbol_id@, sym.name@, instance_data));
        self.add_object(inst);
        proof {
            let active = old(self).active_layer_idx as int;
            assert(self.symbols@ == symbols_with(old(self).symbols@, gs));
            assert(gs.name@ == gs.object.name@);
            assert(is_master(gs.object.model(), removed.1, group_data));
            assert(forests(self.layers@) == removed.0.update(active, removed.0[active].push(im)));
            assert(is_instance(im, symbol_id@, gs.name@, instance_data));
            assert(exists|inst: ObjectModel<P>| #[trigger] is_instance(inst, symbol_id@, gs.name@, instance_data)
                && forests(self.layers@) == removed.0.update(active, removed.0[active].push(inst)));
            assert(is_component_id(symbol_id@));
            assert(gs.id@ == symbol_id@);
            assert(gs.use_count == 1);
            assert(exists|sym: Symbol<P>| {
                    &&& self.symbols@ == #[trigger] symbols_with(old(self).symbols@, sym)
                    &&& sym.id@ == symbol_id@
                    &&& sym.name@ == sym.object.name@
                    &&& sym.use_count == 1
                    &&& is_master(sym.object.model(), removed.1, group_data)
                    &&& exists|inst: ObjectModel<P>| #[trigger] is_instance(inst, symbol_id@, sym.name@, instance_data)
                        && forests(self.layers@) == removed.0.update(active, removed.0[active].push(inst))
                });
            assert(removed == remove_each(forests(old(self).layers@), texts(ids@)));
        }
        Some(symbol_id)
    }

    /// A new instance of the symbol with id `symbol_id` (leading `#` are
    /// ignored), named after the symbol; its payload is made from the
    /// reference `#` + the symbol id. `None` when there is no such symbol.
    pub fn instantiate_component<F: FnOnce(String) -> P>(&mut self, symbol_id: &str, instance_data: F) -> (r: Option<Object<P>>)
        requires
            forall|h: String| #[trigger] instance_data.requires((h,)),
        ensures
            *final(self) == *old(self),
            match symbol_position(old(self).symbols@, strip_hashes(symbol_id@)) {
                Some(p) => r matches Some(o) && is_instance(o.model(), old(self).symbols@[p as int].id@,
                    old(self).symbols@[p as int].name@ + " Instance"@, instance_data),
                None => r is None,
            },
    {
        let sym = match self.symbol_by_id(symbol_id) {
            Some(s) => s,
            None => return None,
        };
        let mut name = sym.name.clone();
        push_str(&mut name, " Instance");
        let mut href = String::new();
        push_char(&mut href, '#');
        push_str(&mut href, sym.id.as_str());
        assert(href@ =~= "#"@ + sym.id@) by {
            reveal_strlit("#");
        }
        let ghost h = href;
        let data = instance_data(href);
        assert(instance_data.ensures((h,), data));
        let o = Object { id: new_uuid_string(), name, data, nesting: Nesting::Leaf };
        assert(name@ == sym.name@ + " Instance"@);
        assert(is_uuid_v4_text(o.id@));
        assert(o.model().kind == NestKind::Leaf);
        assert(o.model().data == data);
        assert(h@ == "#"@ + sym.id@);
        assert(instance_data.ensures((h,), o.model().data));
        assert(is_instance(o.model(), sym.id@, sym.name@ + " Instance"@, instance_data));
        Some(o)
    }
}

} // verus!
