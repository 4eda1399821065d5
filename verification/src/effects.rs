//! The appearance stack of an object: non-destructive effects in drawing
//! order. The parameters of each effect (offsets, radii, colours) are
//! carried as they are; the stack logic only looks at which kind of effect
//! an entry is.
use vstd::prelude::*;

verus! {

/// An appearance effect with its parameters: drop shadow `S`, outer glow
/// `G`, Gaussian blur `B`, colour adjustment `C`.
pub enum VectorEffect<S, G, B, C> {
    DropShadow(S),
    Glow(G),
    Blur(B),
    ColorAdjust(C),
}

/// Which kind of effect an entry is (0 shadow, 1 glow, 2 blur, 3 colour
/// adjustment).
pub open spec fn kind_of<S, G, B, C>(e: VectorEffect<S, G, B, C>) -> nat {
    match e {
        VectorEffect::DropShadow(_) => 0,
        VectorEffect::Glow(_) => 1,
        VectorEffect::Blur(_) => 2,
        VectorEffect::ColorAdjust(_) => 3,
    }
}

fn kind_exec<S, G, B, C>(e: &VectorEffect<S, G, B, C>) -> (k: u8)
    ensures
        k as nat == kind_of(*e),
{
    match e {
        VectorEffect::DropShadow(_) => 0,
        VectorEffect::Glow(_) => 1,
        VectorEffect::Blur(_) => 2,
        VectorEffect::ColorAdjust(_) => 3,
    }
}

/// The first position below `n` of an effect of kind `k`.
pub open spec fn first_of_kind<S, G, B, C>(es: Seq<VectorEffect<S, G, B, C>>, k: nat, n: nat) -> Option<nat>
    decreases n,
{
    if n == 0 {
        None
    } else {
        match first_of_kind(es, k, (n - 1) as nat) {
            Some(p) => Some(p),
            None => if kind_of(es[n - 1]) == k { Some((n - 1) as nat) } else { None },
        }
    }
}

/// The effects of kinds other than `k`, in order.
pub open spec fn without_kind<S, G, B, C>(es: Seq<VectorEffect<S, G, B, C>>, k: nat) -> Seq<VectorEffect<S, G, B, C>>
    decreases es.len(),
{
    if es.len() == 0 {
        es
    } else {
        let r = without_kind(es.drop_last(), k);
        if kind_of(es.last()) == k { r } else { r.push(es.last()) }
    }
}

proof fn lemma_first_of_kind_stable<S, G, B, C>(es: Seq<VectorEffect<S, G, B, C>>, k: nat, n1: nat, n2: nat)
    requires
        n1 <= n2,
        first_of_kind(es, k, n1) is Some,
    ensures
        first_of_kind(es, k, n2) == first_of_kind(es, k, n1),
    decreases n2,
{
    if n2 > n1 {
        lemma_first_of_kind_stable(es, k, n1, (n2 - 1) as nat);
    }
}

/// A stack of appearance effects, drawn in order.
pub struct AppearanceStack<S, G, B, C> {
    pub effects: Vec<VectorEffect<S, G, B, C>>,
}

impl<S, G, B, C> AppearanceStack<S, G, B, C> {
    pub fn new() -> (s: Self)
        ensures
            s.effects@.len() == 0,
    {
        AppearanceStack { effects: Vec::new() }
    }

    pub fn push(&mut self, effect: VectorEffect<S, G, B, C>)
        ensures
            final(self).effects@ == old(self).effects@.push(effect),
    {
        self.effects.push(effect);
    }

    pub fn clear(&mut self)
        ensures
            final(self).effects@.len() == 0,
    {
        self.effects.clear();
    }

    pub fn is_empty(&self) -> (r: bool)
        ensures
            r == (self.effects@.len() == 0),
    {
        self.effects.len() == 0
    }

    /// Position of the first effect of kind `k`.
    fn position_of_kind(&self, k: u8) -> (r: Option<usize>)
        ensures
            match r {
                Some(p) => first_of_kind(self.effects@, k as nat, self.effects@.len()) == Some(p as nat)
                    && p < self.effects@.len() && kind_of(self.effects@[p as int]) == k,
                None => first_of_kind(self.effects@, k as nat, self.effects@.len()) is None,
            },
    {
        let n = self.effects.len();
        let mut i: usize = 0;
        while i < n
            invariant
                i <= n,
                n == self.effects@.len(),
                first_of_kind(self.effects@, k as nat, i as nat) is None,
            decreases n - i,
        {
            if kind_exec(&self.effects[i]) == k {
                proof {
                    lemma_first_of_kind_stable(self.effects@, k as nat, (i + 1) as nat, n as nat);
                }
                return Some(i);
            }
            i += 1;
        }
        None
    }

    /// The first Gaussian blur, if any.
    pub fn has_blur(&self) -> (r: Option<&B>)
        ensures
            match first_of_kind(self.effects@, 2, self.effects@.len()) {
                Some(p) => self.effects@[p as int] matches VectorEffect::Blur(b) && r == Some(&b),
                None => r is None,
            },
    {
        match self.position_of_kind(2) {
            Some(p) => match &self.effects[p] {
                VectorEffect::Blur(b) => Some(b),
                _ => None,
            },
            None => None,
        }
    }

    /// The first drop shadow, if any.
    pub fn has_shadow(&self) -> (r: Option<&S>)
        ensures
            match first_of_kind(self.effects@, 0, self.effects@.len()) {
                Some(p) => self.effects@[p as int] matches VectorEffect::DropShadow(s) && r == Some(&s),
                None => r is None,
            },
    {
        match self.position_of_kind(0) {
            Some(p) => match &self.effects[p] {
                VectorEffect::DropShadow(s) => Some(s),
                _ => None,
            },
            None => None,
        }
    }

    /// The first outer glow, if any.
    pub fn has_glow(&self) -> (r: Option<&G>)
        ensures
            match first_of_kind(self.effects@, 1, self.effects@.len()) {
                Some(p) => self.effects@[p as int] matches VectorEffect::Glow(g) && r == Some(&g),
                None => r is None,
            },
    {
        match self.position_of_kind(1) {
            Some(p) => match &self.effects[p] {
                VectorEffect::Glow(g) => Some(g),
                _ => None,
            },
            None => None,
        }
    }

    /// The first colour adjustment, if any.
    pub fn has_color_adjust(&self) -> (r: Option<&C>)
        ensures
            match first_of_kind(self.effects@, 3, self.effects@.len()) {
                Some(p) => self.effects@[p as int] matches VectorEffect::ColorAdjust(c) && r == Some(&c),
                None => r is None,
            },
    {
        match self.position_of_kind(3) {
            Some(p) => match &self.effects[p] {
                VectorEffect::ColorAdjust(c) => Some(c),
                _ => None,
            },
            None => None,
        }
    }

    /// Replace the first effect of the same kind, or append: an effect
    /// dialog edits its row instead of stacking another.
    pub fn upsert(&mut self, effect: VectorEffect<S, G, B, C>)
        ensures
            final(self).effects@ == (match first_of_kind(old(self).effects@, kind_of(effect), old(self).effects@.len()) {
                Some(p) => old(self).effects@.update(p as int, effect),
                None => old(self).effects@.push(effect),
            }),
    {
        let k = kind_exec(&effect);
        match self.position_of_kind(k) {
            Some(p) => {
                self.effects.set(p, effect);
            },
            None => {
                self.effects.push(effect);
            },
        }
    }

    /// Remove every effect of the same kind as `probe`.
    pub fn remove_kind(&mut self, probe: &VectorEffect<S, G, B, C>)
        ensures
            final(self).effects@ == without_kind(old(self).effects@, kind_of(*probe)),
    {
        let k = kind_exec(probe);
        let mut rest: Vec<VectorEffect<S, G, B, C>> = Vec::new();
        std::mem::swap(&mut rest, &mut self.effects);
        let ghost es = rest@;
        let mut kept: Vec<VectorEffect<S, G, B, C>> = Vec::new();
        let n = rest.len();
        let mut i: usize = 0;
        assert(es.skip(0) =~= es);
        while i < n
            invariant
                i <= n,
                n == es.len(),
                rest@ == es.skip(i as int),
                kept@ == without_kind(es.take(i as int), k as nat),
            decreases n - i,
        {
            let e = rest.remove(0);
            assert(e == es[i as int]);
            assert(es.take(i + 1).drop_last() =~= es.take(i as int));
            assert(rest@ =~= es.skip(i + 1));
            if kind_exec(&e) != k {
                kept.push(e);
            }
            i += 1;
        }
        assert(es.take(n as int) =~= es);
        self.effects = kept;
    }
}

} // verus!
