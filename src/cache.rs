use vstd::prelude::*;

verus! {

/// A dense `h`×`w` matrix of optional samples; `None` marks a point outside
/// the plotted domain.
pub struct PlotData<T> {
    pub data: Vec<Vec<Option<T>>>,
}

impl<T> PlotData<T> {
    pub fn new(data: Vec<Vec<Option<T>>>) -> (p: Self)
        ensures
            p.data == data,
    {
        PlotData { data }
    }

    /// `h` rows of `w` empty samples.
    pub fn empty(w: usize, h: usize) -> (p: Self)
        ensures
            p.data@.len() == h,
            forall|j: int| 0 <= j < h ==> (#[trigger] p.data@[j])@.len() == w,
            forall|j: int, i: int| 0 <= j < h && 0 <= i < w ==> p.data@[j]@[i].is_none(),
    {
        let mut data: Vec<Vec<Option<T>>> = Vec::new();
        let mut j: usize = 0;
        while j < h
            invariant
                j <= h,
                data@.len() == j,
                forall|k: int| 0 <= k < j ==> (#[trigger] data@[k])@.len() == w,
                forall|k: int, i: int| 0 <= k < j && 0 <= i < w ==> data@[k]@[i].is_none(),
            decreases h - j,
        {
            let mut row: Vec<Option<T>> = Vec::new();
            let mut i: usize = 0;
            while i < w
                invariant
                    i <= w,
                    row@.len() == i,
                    forall|m: int| 0 <= m < i ==> row@[m].is_none(),
                decreases w - i,
            {
                row.push(None);
                i += 1;
            }
            data.push(row);
            j += 1;
        }
        PlotData { data }
    }
}

/// The value stored first under `(t, key)`, scanning from the oldest
/// entry.
pub open spec fn lookup_in<V>(e: Seq<(u32, String, V)>, t: u32, key: Seq<char>) -> Option<V>
    decreases e.len(),
{
    if e.len() == 0 {
        None
    } else if e[0].0 == t && e[0].1@ == key {
        Some(e[0].2)
    } else {
        lookup_in(e.drop_first(), t, key)
    }
}

proof fn lemma_lookup_push<V>(e: Seq<(u32, String, V)>, x: (u32, String, V), t: u32, key: Seq<char>)
    ensures
        lookup_in(e.push(x), t, key) == (if lookup_in(e, t, key) is Some {
            lookup_in(e, t, key)
        } else if x.0 == t && x.1@ == key {
            Some(x.2)
        } else {
            None
        }),
    decreases e.len(),
{
    if e.len() > 0 {
        assert(e.push(x)[0] == e[0]);
        assert(e.push(x).drop_first() =~= e.drop_first().push(x));
        lemma_lookup_push(e.drop_first(), x, t, key);
    } else {
        assert(e.push(x)[0] == x);
        assert(e.push(x).drop_first() =~= Seq::<(u32, String, V)>::empty());
        assert(lookup_in(Seq::<(u32, String, V)>::empty(), t, key) is None);
    }
}

proof fn lemma_lookup_suffix<V>(e: Seq<(u32, String, V)>, i: int, t: u32, key: Seq<char>)
    requires
        0 <= i < e.len(),
    ensures
        lookup_in(e.subrange(i, e.len() as int), t, key) == (if e[i].0 == t && e[i].1@ == key {
            Some(e[i].2)
        } else {
            lookup_in(e.subrange(i + 1, e.len() as int), t, key)
        }),
{
    assert(e.subrange(i, e.len() as int).drop_first() =~= e.subrange(i + 1, e.len() as int));
}

/// Computed plots by illuminant (the bits of its temperature) and plot
/// key. Entries are never replaced: the first value stored under a key is
/// the one every later read sees.
pub struct PlotStore<V> {
    pub entries: Vec<(u32, String, V)>,
}

impl<V> PlotStore<V> {
    /// What a read of `(t, key)` gives.
    pub open spec fn lookup(&self, t: u32, key: Seq<char>) -> Option<V> {
        lookup_in(self.entries@, t, key)
    }

    /// `self` is `before` after storing `v` under `(t, key)`: unchanged
    /// where a value was stored already, else holding `v` there and nothing
    /// else new.
    pub open spec fn stored(&self, before: &PlotStore<V>, t: u32, key: Seq<char>, v: V) -> bool {
        forall|t2: u32, k2: Seq<char>|
            #[trigger] self.lookup(t2, k2) == (if before.lookup(t2, k2) is Some {
                before.lookup(t2, k2)
            } else if t2 == t && k2 == key {
                Some(v)
            } else {
                None::<V>
            })
    }

    pub fn new() -> (s: Self)
        ensures
            forall|t: u32, k: Seq<char>| #[trigger] s.lookup(t, k) is None,
    {
        PlotStore { entries: Vec::new() }
    }

    /// The value stored under `(t, key)`, if any.
    pub fn get(&self, t: u32, key: &str) -> (r: Option<&V>)
        ensures
            match r {
                Some(v) => self.lookup(t, key@) == Some(*v),
                None => self.lookup(t, key@) is None,
            },
    {
        let ghost e = self.entries@;
        let wanted: String = key.to_owned();
        let mut i: usize = 0;
        proof {
            assert(e.subrange(0, e.len() as int) =~= e);
        }
        while i < self.entries.len()
            invariant
                e == self.entries@,
                wanted@ == key@,
                i <= e.len(),
                lookup_in(e, t, key@) == lookup_in(e.subrange(i as int, e.len() as int), t, key@),
            decreases e.len() - i,
        {
            proof {
                lemma_lookup_suffix(e, i as int, t, key@);
            }
            let entry = &self.entries[i];
            if entry.0 == t && entry.1 == wanted {
                return Some(&entry.2);
            }
            i += 1;
        }
        proof {
            assert(e.subrange(i as int, e.len() as int) =~= Seq::<(u32, String, V)>::empty());
        }
        None
    }

    /// Stores `v` under `(t, key)` unless a value is stored there already.
    pub fn set(&mut self, t: u32, key: &str, v: V)
        ensures
            final(self).stored(old(self), t, key@, v),
    {
        let found = self.get(t, key).is_some();
        if !found {
            let ghost e = self.entries@;
            let k: String = key.to_owned();
            let ghost x = (t, k, v);
            self.entries.push((t, k, v));
            proof {
                assert(self.entries@ == e.push(x));
                assert forall|t2: u32, k2: Seq<char>| #[trigger] self.lookup(t2, k2) == (if old(self).lookup(t2, k2) is Some {
                    old(self).lookup(t2, k2)
                } else if t2 == t && k2 == key@ {
                    Some(v)
                } else {
                    None::<V>
                }) by {
                    lemma_lookup_push(e, x, t2, k2);
                }
            }
        }
    }
}

impl<V> PlotStore<V> {
    /// Stores what `produce` gives under `(t, key)` where nothing is stored
    /// there yet; `produce` runs only then.
    pub fn fill<F: FnOnce() -> V>(&mut self, t: u32, key: &str, produce: F)
        requires
            produce.requires(()),
        ensures
            old(self).lookup(t, key@) is Some ==> forall|t2: u32, k2: Seq<char>|
                #[trigger] final(self).lookup(t2, k2) == old(self).lookup(t2, k2),
            old(self).lookup(t, key@) is None ==> exists|v: V|
                #[trigger] produce.ensures((), v) && final(self).stored(old(self), t, key@, v),
    {
        let missing = self.get(t, key).is_none();
        if missing {
            let v = produce();
            self.set(t, key, v);
        }
    }
}

/// Once a plot is stored under a key, storing again, under that key or any
/// other, leaves what that key reads: two reads of a key around any number
/// of fills give the same plot.
pub proof fn lemma_first_fill_wins<V>(
    before: PlotStore<V>,
    after: PlotStore<V>,
    t: u32,
    key: Seq<char>,
    t2: u32,
    key2: Seq<char>,
    v2: V,
)
    requires
        before.lookup(t, key) is Some,
        after.stored(&before, t2, key2, v2),
    ensures
        after.lookup(t, key) == before.lookup(t, key),
{
    assert(after.lookup(t, key) == before.lookup(t, key));
}

} // verus!
