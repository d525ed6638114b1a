use vstd::prelude::*;

verus! {

/// Stable identity of the built-in execution timeout kind.
pub const TIMEOUT_KIND: u64 = 1;

/// Stable identity of the built-in worker stack-size kind.
pub const STACK_SIZE_KIND: u64 = 2;

/// Documented default of the execution timeout, in milliseconds.
pub const DEFAULT_TIMEOUT_MS: u64 = 2345;

/// Documented default of the worker stack size, in bytes (10 MiB).
pub const DEFAULT_STACK_SIZE: u64 = 10485760;

/// A setting kind: a value type with a stable identity, a canonical default
/// and a lossless encoding into one raw word.
///
/// The store keeps at most one raw word per kind and per scope; the typed
/// accessors go through the encoding, so a lookup can never hand back a value
/// of the wrong kind.
pub trait Setting: Sized {
    /// The stable identity of this kind.
    spec fn kind_spec() -> u64;

    /// The encoding of a value of this kind as its raw word.
    spec fn raw_spec(&self) -> u64;

    /// The decoding of a raw word back into a value of this kind.
    spec fn of_raw_spec(raw: u64) -> Self;

    /// The canonical default of this kind.
    spec fn default_spec() -> Self;

    fn kind() -> (k: u64)
        ensures
            k == Self::kind_spec(),
    ;

    fn to_raw(&self) -> (r: u64)
        ensures
            r == self.raw_spec(),
            Self::of_raw_spec(r) == *self,
    ;

    fn of_raw(raw: u64) -> (s: Self)
        ensures
            s == Self::of_raw_spec(raw),
    ;

    fn default_value() -> (s: Self)
        ensures
            s == Self::default_spec(),
    ;
}

/// The execution timeout, in milliseconds.
#[derive(Debug, Clone, Copy, PartialEq, Eq, Structural)]
pub struct Timeout(pub u64);

/// The native stack size a worker is spawned with, in bytes.
#[derive(Debug, Clone, Copy, PartialEq, Eq, Structural)]
pub struct StackSize(pub u64);

impl Setting for Timeout {
    open spec fn kind_spec() -> u64 {
        TIMEOUT_KIND
    }

    open spec fn raw_spec(&self) -> u64 {
        self.0
    }

    open spec fn of_raw_spec(raw: u64) -> Timeout {
        Timeout(raw)
    }

    open spec fn default_spec() -> Timeout {
        Timeout(DEFAULT_TIMEOUT_MS)
    }

    fn kind() -> u64 {
        TIMEOUT_KIND
    }

    fn to_raw(&self) -> u64 {
        self.0
    }

    fn of_raw(raw: u64) -> Timeout {
        Timeout(raw)
    }

    fn default_value() -> Timeout {
        Timeout(DEFAULT_TIMEOUT_MS)
    }
}

impl Setting for StackSize {
    open spec fn kind_spec() -> u64 {
        STACK_SIZE_KIND
    }

    open spec fn raw_spec(&self) -> u64 {
        self.0
    }

    open spec fn of_raw_spec(raw: u64) -> StackSize {
        StackSize(raw)
    }

    open spec fn default_spec() -> StackSize {
        StackSize(DEFAULT_STACK_SIZE)
    }

    fn kind() -> u64 {
        STACK_SIZE_KIND
    }

    fn to_raw(&self) -> u64 {
        self.0
    }

    fn of_raw(raw: u64) -> StackSize {
        StackSize(raw)
    }

    fn default_value() -> StackSize {
        StackSize(DEFAULT_STACK_SIZE)
    }
}

/// One scope's settings snapshot: a keyed store from kind identity to raw
/// word, holding at most one word per kind.
///
/// Its mathematical value is the map from kind to raw word.
#[derive(Debug)]
pub struct Settings {
    entries: Vec<(u64, u64)>,
}

spec fn map_of(s: Seq<(u64, u64)>) -> Map<u64, u64>
    decreases s.len(),
{
    if s.len() == 0 {
        Map::empty()
    } else {
        map_of(s.drop_last()).insert(s.last().0, s.last().1)
    }
}

impl View for Settings {
    type V = Map<u64, u64>;

    closed spec fn view(&self) -> Map<u64, u64> {
        map_of(self.entries@)
    }
}

spec fn unique_keys(s: Seq<(u64, u64)>) -> bool {
    forall|i: int, j: int|
        0 <= i < s.len() && 0 <= j < s.len() && i != j ==> s[i].0 != s[j].0
}

proof fn lemma_map_of_lookup(s: Seq<(u64, u64)>, i: int)
    requires
        unique_keys(s),
        0 <= i < s.len(),
    ensures
        map_of(s).contains_key(s[i].0),
        map_of(s)[s[i].0] == s[i].1,
    decreases s.len(),
{
    if i < s.len() - 1 {
        assert(unique_keys(s.drop_last()));
        lemma_map_of_lookup(s.drop_last(), i);
        assert(s[s.len() - 1].0 != s[i].0);
    }
}

proof fn lemma_map_of_absent(s: Seq<(u64, u64)>, k: u64)
    requires
        forall|i: int| 0 <= i < s.len() ==> s[i].0 != k,
    ensures
        !map_of(s).contains_key(k),
    decreases s.len(),
{
    if s.len() > 0 {
        lemma_map_of_absent(s.drop_last(), k);
    }
}

proof fn lemma_map_of_update(s: Seq<(u64, u64)>, i: int, v: u64)
    requires
        unique_keys(s),
        0 <= i < s.len(),
    ensures
        map_of(s.update(i, (s[i].0, v))) =~= map_of(s).insert(s[i].0, v),
    decreases s.len(),
{
    let k = s[i].0;
    let t = s.update(i, (k, v));
    if i == s.len() - 1 {
        assert(t.drop_last() =~= s.drop_last());
        assert(map_of(t) =~= map_of(s).insert(k, v));
    } else {
        assert(t.drop_last() =~= s.drop_last().update(i, (k, v)));
        assert(unique_keys(s.drop_last()));
        lemma_map_of_update(s.drop_last(), i, v);
        assert(s.last().0 != k);
        assert(map_of(t) =~= map_of(s).insert(k, v));
    }
}

impl Settings {
    /// Well-formedness: at most one entry per kind.
    pub closed spec fn wf(&self) -> bool {
        unique_keys(self.entries@)
    }

    /// A fresh store, holding only the built-in timeout at its documented
    /// default.  Every other kind is resolved through its default at lookup.
    pub fn new() -> (s: Settings)
        ensures
            s.wf(),
            s@ == Map::<u64, u64>::empty().insert(TIMEOUT_KIND, DEFAULT_TIMEOUT_MS),
    {
        let mut entries: Vec<(u64, u64)> = Vec::new();
        entries.push((TIMEOUT_KIND, DEFAULT_TIMEOUT_MS));
        proof {
            assert(entries@.drop_last() =~= Seq::<(u64, u64)>::empty());
            assert(map_of(Seq::<(u64, u64)>::empty()) =~= Map::<u64, u64>::empty());
        }
        Settings { entries }
    }

    /// Stores the raw word `value` for the kind `kind`, replacing the word
    /// the current snapshot held for that kind, if any.
    pub fn insert_raw(&mut self, kind: u64, value: u64)
        requires
            old(self).wf(),
        ensures
            final(self).wf(),
            final(self)@ == old(self)@.insert(kind, value),
    {
        let n = self.entries.len();
        let mut i: usize = 0;
        while i < n
            invariant
                n == self.entries.len(),
                i <= n,
                self.entries@ == old(self).entries@,
                unique_keys(self.entries@),
                forall|j: int| 0 <= j < i ==> self.entries@[j].0 != kind,
            decreases n - i,
        {
            if self.entries[i].0 == kind {
                let ghost s0 = self.entries@;
                self.entries.set(i, (kind, value));
                proof {
                    let t = self.entries@;
                    assert(forall|j: int| 0 <= j < t.len() ==> t[j].0 == s0[j].0);
                    lemma_map_of_update(s0, i as int, value);
                    assert(self@ =~= old(self)@.insert(kind, value));
                }
                return;
            }
            i += 1;
        }
        let ghost s0 = self.entries@;
        self.entries.push((kind, value));
        proof {
            assert(self.entries@.drop_last() =~= s0);
            assert(self@ =~= old(self)@.insert(kind, value));
        }
    }

    /// Stores a typed setting value under its own kind, replacing the value
    /// the current snapshot held for that kind, if any.
    pub fn insert<S: Setting>(&mut self, setting: S)
        requires
            old(self).wf(),
        ensures
            final(self).wf(),
            final(self)@ == old(self)@.insert(S::kind_spec(), setting.raw_spec()),
    {
        let kind = S::kind();
        let value = setting.to_raw();
        self.insert_raw(kind, value);
    }

    /// The raw word stored for the kind `kind`, if any.
    pub fn get_raw(&self, kind: u64) -> (r: Option<u64>)
        requires
            self.wf(),
        ensures
            match r {
                Some(v) => self@.contains_key(kind) && self@[kind] == v,
                None => !self@.contains_key(kind),
            },
    {
        let n = self.entries.len();
        let mut i: usize = 0;
        while i < n
            invariant
                n == self.entries.len(),
                i <= n,
                self.wf(),
                forall|j: int| 0 <= j < i ==> self.entries@[j].0 != kind,
            decreases n - i,
        {
            if self.entries[i].0 == kind {
                let v = self.entries[i].1;
                proof {
                    lemma_map_of_lookup(self.entries@, i as int);
                }
                return Some(v);
            }
            i += 1;
        }
        proof {
            lemma_map_of_absent(self.entries@, kind);
        }
        None
    }

    /// The stored value of the kind `S`, if set.
    ///
    /// The accessor is keyed off the target type itself, so a kind/value
    /// mismatch is unreachable by construction.
    pub fn get<S: Setting>(&self) -> (r: Option<S>)
        requires
            self.wf(),
        ensures
            match r {
                Some(s) => self@.contains_key(S::kind_spec())
                    && s == S::of_raw_spec(self@[S::kind_spec()]),
                None => !self@.contains_key(S::kind_spec()),
            },
    {
        match self.get_raw(S::kind()) {
            Some(raw) => Some(S::of_raw(raw)),
            None => None,
        }
    }

    /// The stored value of the kind `S`, or that kind's documented default
    /// where the snapshot holds none.
    pub fn get_or_default<S: Setting>(&self) -> (s: S)
        requires
            self.wf(),
        ensures
            self@.contains_key(S::kind_spec()) ==> s == S::of_raw_spec(self@[S::kind_spec()]),
            !self@.contains_key(S::kind_spec()) ==> s == S::default_spec(),
    {
        match self.get::<S>() {
            Some(s) => s,
            None => S::default_value(),
        }
    }
}

impl Default for Settings {
    /// Same as [`Settings::new`].
    fn default() -> (s: Settings)
        ensures
            s.wf(),
            s@ == Map::<u64, u64>::empty().insert(TIMEOUT_KIND, DEFAULT_TIMEOUT_MS),
    {
        Settings::new()
    }
}

impl Clone for Settings {
    /// An exact copy: entering a scope duplicates the parent's snapshot.
    fn clone(&self) -> (r: Settings)
        ensures
            r.wf() == self.wf(),
            r@ == self@,
    {
        let n = self.entries.len();
        let mut entries: Vec<(u64, u64)> = Vec::new();
        let mut i: usize = 0;
        while i < n
            invariant
                n == self.entries.len(),
                i <= n,
                entries@ =~= self.entries@.take(i as int),
            decreases n - i,
        {
            entries.push(self.entries[i]);
            i += 1;
        }
        proof {
            assert(entries@ =~= self.entries@);
        }
        Settings { entries }
    }
}

} // verus!
