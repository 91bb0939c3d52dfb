//! Value model.
//!
//! A closed tagged union used both as leaf content and as a reference to a
//! nested container. Floating-point payloads are carried as their IEEE-754
//! bit patterns, so equality and hashing are structural throughout. Nesting
//! depth of lists and maps is bounded; values exceeding the bound are
//! rejected at the boundary where user-provided values are accepted, never
//! partially accepted.

use vstd::prelude::*;

verus! {

broadcast use vstd::std_specs::vec::group_vec_axioms;

/// The nesting depth bound for lists and maps.
pub const MAX_DEPTH: usize = 128;

/// Offset basis of the structural hash (the 64-bit FNV offset).
pub const FNV_OFFSET: u64 = 0xcbf29ce484222325;

/// Multiplier of the structural hash (the 64-bit FNV prime).
pub const FNV_PRIME: u64 = 0x100000001b3;

/// An opaque reference to a nested container: compares and hashes by
/// identifier only, never by the container's content.
#[derive(Clone, Copy, Debug, PartialEq, Eq, Hash, Structural)]
pub struct ContainerID {
    pub client: u64,
    pub counter: i32,
}

/// One entry of a map value.
#[derive(Debug, PartialEq, Eq)]
pub struct MapEntry {
    pub key: String,
    pub value: LoroValue,
}

/// The state of a CRDT container at a given version: a closed tagged union
/// over plain leaves, sequences, string-keyed maps and container
/// references. `Double` holds the IEEE-754 bit pattern of a 64-bit float, so
/// that equality and hashing stay structural.
#[derive(Debug, PartialEq, Eq)]
pub enum LoroValue {
    Null,
    Bool(bool),
    Double(u64),
    I64(i64),
    Binary(Vec<u8>),
    String(String),
    List(Vec<LoroValue>),
    Dict(Vec<MapEntry>),
    Container(ContainerID),
}

/// A typed failure at the value boundary.
#[derive(Clone, Copy, Debug, PartialEq, Eq, Structural)]
pub enum ValueError {
    /// The nesting depth bound was exceeded.
    DepthExceeded,
    /// A map value holds the same key twice.
    DuplicateKey,
    /// A conversion addressed a different variant than the value holds.
    WrongVariant,
}

/// Nesting depth: zero for leaves, one more than the deepest child for
/// lists and maps.
pub open spec fn depth(v: LoroValue) -> nat
    decreases v,
{
    match v {
        LoroValue::List(l) => 1 + list_depth(l@),
        LoroValue::Dict(m) => 1 + map_depth(m@),
        _ => 0,
    }
}

pub open spec fn list_depth(s: Seq<LoroValue>) -> nat
    decreases s,
{
    if s.len() == 0 {
        0
    } else {
        let d0 = depth(s[0]);
        let rest = list_depth(s.drop_first());
        if d0 >= rest {
            d0
        } else {
            rest
        }
    }
}

pub open spec fn map_depth(s: Seq<MapEntry>) -> nat
    decreases s,
{
    if s.len() == 0 {
        0
    } else {
        let d0 = depth(s[0].value);
        let rest = map_depth(s.drop_first());
        if d0 >= rest {
            d0
        } else {
            rest
        }
    }
}

/// The first value stored under `key`, if any. When the entries satisfy
/// [`unique_keys`] this is the map lookup itself (see
/// [`lemma_map_get_unique`]).
pub open spec fn map_get(s: Seq<MapEntry>, key: Seq<char>) -> Option<LoroValue>
    decreases s.len(),
{
    if s.len() == 0 {
        Option::None
    } else if s[0].key@ == key {
        Option::Some(s[0].value)
    } else {
        map_get(s.drop_first(), key)
    }
}

/// Well-formedness of a map value's entries: no key occurs twice. Under
/// this invariant the first-match lookup and the entry-order-sensitive
/// structural equality both coincide with map semantics.
pub open spec fn unique_keys(s: Seq<MapEntry>) -> bool {
    forall|i: int, j: int| 0 <= i < j < s.len() ==> s[i].key@ != s[j].key@
}

/// Under unique keys, whatever entry holds `key` is the one `map_get`
/// returns: first-match lookup is the map lookup.
pub proof fn lemma_map_get_unique(s: Seq<MapEntry>, key: Seq<char>, i: int)
    requires
        unique_keys(s),
        0 <= i < s.len(),
        s[i].key@ == key,
    ensures
        map_get(s, key) == Option::Some(s[i].value),
    decreases s.len(),
{
    if i > 0 {
        assert(s[0].key@ != s[i].key@);
        assert(s.drop_first()[i - 1] == s[i]);
        assert(forall|a: int, b: int|
            0 <= a < b < s.drop_first().len() ==> s.drop_first()[a] == s[a + 1]
                && s.drop_first()[b] == s[b + 1]);
        lemma_map_get_unique(s.drop_first(), key, i - 1);
    }
}

/// Every map nested anywhere in the value has unique keys.
pub open spec fn keys_wf(v: LoroValue) -> bool
    decreases v,
{
    match v {
        LoroValue::List(l) => list_keys_wf(l@),
        LoroValue::Dict(m) => unique_keys(m@) && entries_keys_wf(m@),
        _ => true,
    }
}

pub open spec fn list_keys_wf(s: Seq<LoroValue>) -> bool
    decreases s,
{
    if s.len() == 0 {
        true
    } else {
        keys_wf(s[0]) && list_keys_wf(s.drop_first())
    }
}

pub open spec fn entries_keys_wf(s: Seq<MapEntry>) -> bool
    decreases s,
{
    if s.len() == 0 {
        true
    } else {
        keys_wf(s[0].value) && entries_keys_wf(s.drop_first())
    }
}

/// One round of the structural hash: Fowler–Noll–Vo style mixing.
pub open spec fn mix(h: u64, x: u64) -> u64 {
    (h ^ x).wrapping_mul(FNV_PRIME)
}

pub open spec fn fold_bytes(h: u64, s: Seq<u8>) -> u64
    decreases s.len(),
{
    if s.len() == 0 {
        h
    } else {
        fold_bytes(mix(h, s[0] as u64), s.drop_first())
    }
}

pub open spec fn fold_chars(h: u64, s: Seq<char>) -> u64
    decreases s.len(),
{
    if s.len() == 0 {
        h
    } else {
        fold_chars(mix(h, s[0] as u64), s.drop_first())
    }
}

/// The structural hash of a value: a pure function of the value's
/// structure, so equal values always hash equally (as hash-map usage
/// requires). Container references hash by identifier only.
pub open spec fn shash(v: LoroValue) -> u64
    decreases v,
{
    match v {
        LoroValue::Null => mix(FNV_OFFSET, 0),
        LoroValue::Bool(b) => mix(
            mix(FNV_OFFSET, 1),
            if b {
                1
            } else {
                0
            },
        ),
        LoroValue::Double(bits) => mix(mix(FNV_OFFSET, 2), bits),
        LoroValue::I64(i) => mix(mix(FNV_OFFSET, 3), i as u64),
        LoroValue::Binary(b) => fold_bytes(mix(FNV_OFFSET, 4), b@),
        LoroValue::String(s) => fold_chars(mix(FNV_OFFSET, 5), s@),
        LoroValue::List(l) => fold_list(mix(FNV_OFFSET, 6), l@),
        LoroValue::Dict(m) => fold_entries(mix(FNV_OFFSET, 7), m@),
        LoroValue::Container(id) => mix(mix(mix(FNV_OFFSET, 8), id.client), id.counter as u64),
    }
}

pub open spec fn fold_list(h: u64, s: Seq<LoroValue>) -> u64
    decreases s,
{
    if s.len() == 0 {
        h
    } else {
        fold_list(mix(h, shash(s[0])), s.drop_first())
    }
}

pub open spec fn fold_entries(h: u64, s: Seq<MapEntry>) -> u64
    decreases s,
{
    if s.len() == 0 {
        h
    } else {
        fold_entries(mix(fold_chars(h, s[0].key@), shash(s[0].value)), s.drop_first())
    }
}

/// Structural hashing agrees with structural equality: the hash is a
/// function of the value alone.
pub proof fn lemma_hash_agrees_with_eq(a: LoroValue, b: LoroValue)
    requires
        a == b,
    ensures
        shash(a) == shash(b),
{
}

fn mix_step(h: u64, x: u64) -> (r: u64)
    ensures
        r == mix(h, x),
{
    (h ^ x).wrapping_mul(FNV_PRIME)
}

fn fold_chars_of(h0: u64, s: &str) -> (r: u64)
    ensures
        r == fold_chars(h0, s@),
{
    let n = s.unicode_len();
    let mut h = h0;
    let mut i: usize = 0;
    proof {
        assert(s@.skip(0) =~= s@);
    }
    while i < n
        invariant
            i <= n,
            n == s@.len(),
            fold_chars(h0, s@) == fold_chars(h, s@.skip(i as int)),
        decreases n - i,
    {
        proof {
            assert(s@.skip(i as int)[0] == s@[i as int]);
            assert(s@.skip(i as int).drop_first() =~= s@.skip(i + 1));
        }
        let c = s.get_char(i);
        h = mix_step(h, c as u64);
        i += 1;
    }
    proof {
        assert(s@.skip(n as int) =~= Seq::<char>::empty());
    }
    h
}

impl LoroValue {
    /// The value under `key` when this value is a map holding that key;
    /// `None` for a map without it and for every other variant.
    pub fn get_by_key(&self, key: &str) -> (r: Option<&LoroValue>)
        ensures
            match *self {
                LoroValue::Dict(m) => {
                    match r {
                        Some(v) => map_get(m@, key@) == Option::Some(*v),
                        None => map_get(m@, key@) is None,
                    }
                },
                _ => r is None,
            },
    {
        match self {
            LoroValue::Dict(m) => {
                let owned = key.to_owned();
                let n = m.len();
                proof {
                    assert(m@.skip(0) =~= m@);
                }
                let mut i: usize = 0;
                while i < n
                    invariant
                        *self == LoroValue::Dict(*m),
                        i <= n,
                        n == m@.len(),
                        owned@ == key@,
                        map_get(m@, key@) == map_get(m@.skip(i as int), key@),
                    decreases n - i,
                {
                    proof {
                        assert(m@.skip(i as int)[0] == m@[i as int]);
                        assert(m@.skip(i as int).drop_first() =~= m@.skip(i + 1));
                    }
                    if m[i].key == owned {
                        proof {
                            assert(map_get(m@.skip(i as int), key@) == Option::Some(
                                m@[i as int].value,
                            ));
                        }
                        return Some(&m[i].value);
                    }
                    i += 1;
                }
                proof {
                    assert(m@.skip(n as int) =~= Seq::<MapEntry>::empty());
                    assert(map_get(Seq::<MapEntry>::empty(), key@) is None);
                }
                None
            },
            _ => None,
        }
    }

    /// The element at `index` when this value is a list long enough;
    /// `None` otherwise.
    pub fn get_by_index(&self, index: usize) -> (r: Option<&LoroValue>)
        ensures
            match *self {
                LoroValue::List(l) => {
                    match r {
                        Some(v) => index < l@.len() && *v == l@[index as int],
                        None => index >= l@.len(),
                    }
                },
                _ => r is None,
            },
    {
        match self {
            LoroValue::List(l) => {
                if index < l.len() {
                    Some(&l[index])
                } else {
                    None
                }
            },
            _ => None,
        }
    }

    /// Whether the value is the boolean `false`; any other variant is not.
    pub fn is_false(&self) -> (r: bool)
        ensures
            r == (*self == LoroValue::Bool(false)),
    {
        match self {
            LoroValue::Bool(b) => !*b,
            _ => false,
        }
    }

    /// The nesting depth, saturating at `usize::MAX` (which no value a
    /// machine can hold ever reaches).
    pub fn get_depth(&self) -> (r: usize)
        ensures
            depth(*self) < usize::MAX ==> r == depth(*self),
            depth(*self) >= usize::MAX ==> r == usize::MAX,
        decreases *self,
    {
        match self {
            LoroValue::List(l) => {
                let mut mx: usize = 0;
                let mut i: usize = l.len();
                while i > 0
                    invariant
                        *self == LoroValue::List(*l),
                        i <= l@.len(),
                        list_depth(l@.skip(i as int)) < usize::MAX ==> mx == list_depth(
                            l@.skip(i as int),
                        ),
                        list_depth(l@.skip(i as int)) >= usize::MAX ==> mx == usize::MAX,
                    decreases i,
                {
                    i = i - 1;
                    proof {
                        assert(l@.skip(i as int)[0] == l@[i as int]);
                        assert(l@.skip(i as int).drop_first() =~= l@.skip(i + 1));
                    }
                    proof {
                        assert((*self)->List_0 == *l);
                        assert(decreases_to!(*self => (*self)->List_0));
                        assert(decreases_to!(*l => l@));
                        assert(decreases_to!(l@ => l@[i as int]));
                        assert(decreases_to!(*self => l@[i as int]));
                    }
                    let d = l[i].get_depth();
                    if d > mx {
                        mx = d;
                    }
                }
                proof {
                    assert(l@.skip(0) =~= l@);
                }
                if mx == usize::MAX {
                    usize::MAX
                } else {
                    mx + 1
                }
            },
            LoroValue::Dict(m) => {
                let mut mx: usize = 0;
                let mut i: usize = m.len();
                while i > 0
                    invariant
                        *self == LoroValue::Dict(*m),
                        i <= m@.len(),
                        map_depth(m@.skip(i as int)) < usize::MAX ==> mx == map_depth(
                            m@.skip(i as int),
                        ),
                        map_depth(m@.skip(i as int)) >= usize::MAX ==> mx == usize::MAX,
                    decreases i,
                {
                    i = i - 1;
                    proof {
                        assert(m@.skip(i as int)[0] == m@[i as int]);
                        assert(m@.skip(i as int).drop_first() =~= m@.skip(i + 1));
                    }
                    proof {
                        assert((*self)->Dict_0 == *m);
                        assert(decreases_to!(*self => (*self)->Dict_0));
                        assert(decreases_to!(*m => m@));
                        assert(decreases_to!(m@ => m@[i as int]));
                        assert(decreases_to!(*self => m@[i as int].value));
                    }
                    let d = m[i].value.get_depth();
                    if d > mx {
                        mx = d;
                    }
                }
                proof {
                    assert(m@.skip(0) =~= m@);
                }
                if mx == usize::MAX {
                    usize::MAX
                } else {
                    mx + 1
                }
            },
            _ => 0,
        }
    }

    /// The value under `key` of a map, or `Null` for a missing key and for
    /// every other variant: the total, defaulting counterpart of
    /// [`Self::get_by_key`].
    pub fn key_or_null(&self, key: &str) -> (r: &LoroValue)
        ensures
            match *self {
                LoroValue::Dict(m) => {
                    match map_get(m@, key@) {
                        Option::Some(v) => *r == v,
                        Option::None => *r == LoroValue::Null,
                    }
                },
                _ => *r == LoroValue::Null,
            },
    {
        match self.get_by_key(key) {
            Some(v) => v,
            None => &LoroValue::Null,
        }
    }

    /// The element at `index` of a list, or `Null` out of bounds and for
    /// every other variant: the total, defaulting counterpart of
    /// [`Self::get_by_index`].
    pub fn index_or_null(&self, index: usize) -> (r: &LoroValue)
        ensures
            match *self {
                LoroValue::List(l) => {
                    if index < l@.len() {
                        *r == l@[index as int]
                    } else {
                        *r == LoroValue::Null
                    }
                },
                _ => *r == LoroValue::Null,
            },
    {
        match self.get_by_index(index) {
            Some(v) => v,
            None => &LoroValue::Null,
        }
    }

    /// The structural hash of the value. Two structurally equal values
    /// always hash equally (see [`lemma_hash_agrees_with_eq`]); container
    /// references hash by identifier only.
    pub fn structural_hash(&self) -> (r: u64)
        ensures
            r == shash(*self),
        decreases *self,
    {
        match self {
            LoroValue::Null => mix_step(FNV_OFFSET, 0),
            LoroValue::Bool(b) => mix_step(
                mix_step(FNV_OFFSET, 1),
                if *b {
                    1
                } else {
                    0
                },
            ),
            LoroValue::Double(bits) => mix_step(mix_step(FNV_OFFSET, 2), *bits),
            LoroValue::I64(i) => mix_step(
                mix_step(FNV_OFFSET, 3),
                #[verifier::truncate]
                (*i as u64),
            ),
            LoroValue::Binary(b) => {
                let mut h = mix_step(FNV_OFFSET, 4);
                let ghost h1 = h;
                let n = b.len();
                let mut i: usize = 0;
                proof {
                    assert(b@.skip(0) =~= b@);
                }
                while i < n
                    invariant
                        i <= n,
                        n == b@.len(),
                        fold_bytes(h1, b@) == fold_bytes(h, b@.skip(i as int)),
                    decreases n - i,
                {
                    proof {
                        assert(b@.skip(i as int)[0] == b@[i as int]);
                        assert(b@.skip(i as int).drop_first() =~= b@.skip(i + 1));
                    }
                    h = mix_step(h, b[i] as u64);
                    i += 1;
                }
                proof {
                    assert(b@.skip(n as int) =~= Seq::<u8>::empty());
                }
                h
            },
            LoroValue::String(s) => fold_chars_of(mix_step(FNV_OFFSET, 5), s.as_str()),
            LoroValue::List(l) => {
                let mut h = mix_step(FNV_OFFSET, 6);
                let ghost h1 = h;
                let n = l.len();
                let mut i: usize = 0;
                proof {
                    assert(l@.skip(0) =~= l@);
                }
                while i < n
                    invariant
                        *self == LoroValue::List(*l),
                        i <= n,
                        n == l@.len(),
                        fold_list(h1, l@) == fold_list(h, l@.skip(i as int)),
                    decreases n - i,
                {
                    proof {
                        assert(l@.skip(i as int)[0] == l@[i as int]);
                        assert(l@.skip(i as int).drop_first() =~= l@.skip(i + 1));
                        assert((*self)->List_0 == *l);
                        assert(decreases_to!(*self => (*self)->List_0));
                        assert(decreases_to!(*l => l@));
                        assert(decreases_to!(l@ => l@[i as int]));
                        assert(decreases_to!(*self => l@[i as int]));
                    }
                    let hc = l[i].structural_hash();
                    h = mix_step(h, hc);
                    i += 1;
                }
                proof {
                    assert(l@.skip(n as int) =~= Seq::<LoroValue>::empty());
                }
                h
            },
            LoroValue::Dict(m) => {
                let mut h = mix_step(FNV_OFFSET, 7);
                let ghost h1 = h;
                let n = m.len();
                let mut i: usize = 0;
                proof {
                    assert(m@.skip(0) =~= m@);
                }
                while i < n
                    invariant
                        *self == LoroValue::Dict(*m),
                        i <= n,
                        n == m@.len(),
                        fold_entries(h1, m@) == fold_entries(h, m@.skip(i as int)),
                    decreases n - i,
                {
                    proof {
                        assert(m@.skip(i as int)[0] == m@[i as int]);
                        assert(m@.skip(i as int).drop_first() =~= m@.skip(i + 1));
                        assert((*self)->Dict_0 == *m);
                        assert(decreases_to!(*self => (*self)->Dict_0));
                        assert(decreases_to!(*m => m@));
                        assert(decreases_to!(m@ => m@[i as int]));
                        assert(decreases_to!(*self => m@[i as int].value));
                    }
                    let hk = fold_chars_of(h, m[i].key.as_str());
                    let hv = m[i].value.structural_hash();
                    h = mix_step(hk, hv);
                    i += 1;
                }
                proof {
                    assert(m@.skip(n as int) =~= Seq::<MapEntry>::empty());
                }
                h
            },
            LoroValue::Container(id) => mix_step(
                mix_step(mix_step(FNV_OFFSET, 8), id.client),
                #[verifier::truncate]
                (id.counter as u64),
            ),
        }
    }

    /// Whether the nesting depth exceeds the bound.
    pub fn is_too_deep(&self) -> (r: bool)
        ensures
            r == (depth(*self) > MAX_DEPTH),
    {
        self.get_depth() > MAX_DEPTH
    }

    /// The boundary check for user-provided values: accepted exactly when
    /// the nesting depth stays within the bound, never partially accepted.
    pub fn check_depth(&self) -> (r: Result<(), ValueError>)
        ensures
            match r {
                Ok(_) => depth(*self) <= MAX_DEPTH,
                Err(ValueError::DepthExceeded) => depth(*self) > MAX_DEPTH,
                Err(_) => false,
            },
    {
        if self.is_too_deep() {
            Err(ValueError::DepthExceeded)
        } else {
            Ok(())
        }
    }

    /// Whether every map nested anywhere in the value has unique keys.
    pub fn check_keys(&self) -> (r: bool)
        ensures
            r == keys_wf(*self),
        decreases *self,
    {
        match self {
            LoroValue::List(l) => {
                let n = l.len();
                let mut i: usize = 0;
                proof {
                    assert(l@.skip(0) =~= l@);
                }
                while i < n
                    invariant
                        *self == LoroValue::List(*l),
                        i <= n,
                        n == l@.len(),
                        list_keys_wf(l@) == list_keys_wf(l@.skip(i as int)),
                    decreases n - i,
                {
                    proof {
                        assert(l@.skip(i as int)[0] == l@[i as int]);
                        assert(l@.skip(i as int).drop_first() =~= l@.skip(i + 1));
                        assert((*self)->List_0 == *l);
                        assert(decreases_to!(*self => (*self)->List_0));
                        assert(decreases_to!(*l => l@));
                        assert(decreases_to!(l@ => l@[i as int]));
                        assert(decreases_to!(*self => l@[i as int]));
                    }
                    if !l[i].check_keys() {
                        return false;
                    }
                    i += 1;
                }
                proof {
                    assert(l@.skip(n as int) =~= Seq::<LoroValue>::empty());
                }
                true
            },
            LoroValue::Dict(m) => {
                let n = m.len();
                let mut i: usize = 0;
                while i < n
                    invariant
                        *self == LoroValue::Dict(*m),
                        i <= n,
                        n == m@.len(),
                        forall|a: int, b: int|
                            0 <= a < b < m@.len() && a < i ==> #[trigger] m@[a].key@
                                != #[trigger] m@[b].key@,
                    decreases n - i,
                {
                    let mut j: usize = i + 1;
                    while j < n
                        invariant
                            *self == LoroValue::Dict(*m),
                            i < j <= n,
                            i < n,
                            n == m@.len(),
                            forall|b: int| i < b < j ==> m@[i as int].key@ != (#[trigger] m@[b]).key@,
                        decreases n - j,
                    {
                        if m[i].key == m[j].key {
                            proof {
                                assert(m@[i as int].key@ == m@[j as int].key@);
                                assert(!unique_keys(m@));
                            }
                            return false;
                        }
                        j += 1;
                    }
                    i += 1;
                }
                proof {
                    assert(unique_keys(m@));
                    assert(m@.skip(0) =~= m@);
                }
                let mut i: usize = 0;
                while i < n
                    invariant
                        *self == LoroValue::Dict(*m),
                        i <= n,
                        n == m@.len(),
                        unique_keys(m@),
                        entries_keys_wf(m@) == entries_keys_wf(m@.skip(i as int)),
                    decreases n - i,
                {
                    proof {
                        assert(m@.skip(i as int)[0] == m@[i as int]);
                        assert(m@.skip(i as int).drop_first() =~= m@.skip(i + 1));
                        assert((*self)->Dict_0 == *m);
                        assert(decreases_to!(*self => (*self)->Dict_0));
                        assert(decreases_to!(*m => m@));
                        assert(decreases_to!(m@ => m@[i as int]));
                        assert(decreases_to!(*self => m@[i as int].value));
                    }
                    if !m[i].value.check_keys() {
                        return false;
                    }
                    i += 1;
                }
                proof {
                    assert(m@.skip(n as int) =~= Seq::<MapEntry>::empty());
                }
                true
            },
            _ => true,
        }
    }

    /// The full boundary check for user-provided values: accepted exactly
    /// when the nesting depth stays within the bound and every nested map
    /// has unique keys; never partially accepted.
    pub fn validate(&self) -> (r: Result<(), ValueError>)
        ensures
            match r {
                Ok(_) => depth(*self) <= MAX_DEPTH && keys_wf(*self),
                Err(ValueError::DepthExceeded) => depth(*self) > MAX_DEPTH,
                Err(ValueError::DuplicateKey) => depth(*self) <= MAX_DEPTH && !keys_wf(*self),
                Err(_) => false,
            },
    {
        if self.is_too_deep() {
            Err(ValueError::DepthExceeded)
        } else if !self.check_keys() {
            Err(ValueError::DuplicateKey)
        } else {
            Ok(())
        }
    }

    pub fn into_bool(self) -> (r: Result<bool, ValueError>)
        ensures
            match r {
                Ok(b) => self == LoroValue::Bool(b),
                Err(ValueError::WrongVariant) => !(self is Bool),
                Err(_) => false,
            },
    {
        match self {
            LoroValue::Bool(b) => Ok(b),
            _ => Err(ValueError::WrongVariant),
        }
    }

    pub fn into_i64(self) -> (r: Result<i64, ValueError>)
        ensures
            match r {
                Ok(v) => self == LoroValue::I64(v),
                Err(ValueError::WrongVariant) => !(self is I64),
                Err(_) => false,
            },
    {
        match self {
            LoroValue::I64(v) => Ok(v),
            _ => Err(ValueError::WrongVariant),
        }
    }

    /// The IEEE-754 bit pattern of a double value.
    pub fn into_double_bits(self) -> (r: Result<u64, ValueError>)
        ensures
            match r {
                Ok(v) => self == LoroValue::Double(v),
                Err(ValueError::WrongVariant) => !(self is Double),
                Err(_) => false,
            },
    {
        match self {
            LoroValue::Double(v) => Ok(v),
            _ => Err(ValueError::WrongVariant),
        }
    }

    pub fn into_binary(self) -> (r: Result<Vec<u8>, ValueError>)
        ensures
            match r {
                Ok(v) => self == LoroValue::Binary(v),
                Err(ValueError::WrongVariant) => !(self is Binary),
                Err(_) => false,
            },
    {
        match self {
            LoroValue::Binary(v) => Ok(v),
            _ => Err(ValueError::WrongVariant),
        }
    }

    pub fn into_string(self) -> (r: Result<String, ValueError>)
        ensures
            match r {
                Ok(v) => self == LoroValue::String(v),
                Err(ValueError::WrongVariant) => !(self is String),
                Err(_) => false,
            },
    {
        match self {
            LoroValue::String(v) => Ok(v),
            _ => Err(ValueError::WrongVariant),
        }
    }

    pub fn into_list(self) -> (r: Result<Vec<LoroValue>, ValueError>)
        ensures
            match r {
                Ok(v) => self == LoroValue::List(v),
                Err(ValueError::WrongVariant) => !(self is List),
                Err(_) => false,
            },
    {
        match self {
            LoroValue::List(v) => Ok(v),
            _ => Err(ValueError::WrongVariant),
        }
    }

    pub fn into_map(self) -> (r: Result<Vec<MapEntry>, ValueError>)
        ensures
            match r {
                Ok(v) => self == LoroValue::Dict(v),
                Err(ValueError::WrongVariant) => !(self is Dict),
                Err(_) => false,
            },
    {
        match self {
            LoroValue::Dict(v) => Ok(v),
            _ => Err(ValueError::WrongVariant),
        }
    }

    pub fn into_container(self) -> (r: Result<ContainerID, ValueError>)
        ensures
            match r {
                Ok(v) => self == LoroValue::Container(v),
                Err(ValueError::WrongVariant) => !(self is Container),
                Err(_) => false,
            },
    {
        match self {
            LoroValue::Container(v) => Ok(v),
            _ => Err(ValueError::WrongVariant),
        }
    }
}

} // verus!
