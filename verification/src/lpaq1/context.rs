//! Context models: one bit history per context, found through a hash of
//! the last whole bytes and a walk over the bits of the current byte.

use vstd::prelude::*;
use crate::lpaq1::hashtable::HashTable;
use crate::lpaq1::hashtable::HashTableModel;
use crate::lpaq1::hashtable::lemma_slot_bounds;
use crate::lpaq1::hashtable::PADDING;
use crate::lpaq1::hashtable::power_of_two;
use crate::bits::two_to;
use crate::state::next_state;
use crate::state::next_state_spec;
use crate::statemap::StateMap;
use crate::statemap::StateMapKind;
use crate::statemap::StateMapModel;

verus! {

/// Size of the table of order-1 histories.
pub const DIRECT: usize = 65536;

/// Where a bit history lives: in the table indexed directly by the last
/// byte, or in the hashed table.
#[derive(Clone, Copy, PartialEq, Eq, Structural, Debug)]
pub enum StateRef {
    Direct(usize),
    Hashed(usize),
}

impl StateRef {
    /// The place in its table.
    pub open spec fn index(self) -> int {
        match self {
            StateRef::Direct(i) => i as int,
            StateRef::Hashed(i) => i as int,
        }
    }

    /// The reference `j` bytes further on in the same table.
    pub open spec fn add(self, j: int) -> StateRef {
        match self {
            StateRef::Direct(i) => StateRef::Direct((i + j) as usize),
            StateRef::Hashed(i) => StateRef::Hashed((i + j) as usize),
        }
    }
}

/// Mathematical content of [`Histories`].
pub struct HistoriesModel {
    pub direct: Seq<u8>,
    pub hashed: HashTableModel,
}

impl HistoriesModel {
    /// The direct table has its size and the hashed table is
    /// well-formed.
    pub open spec fn wf(self) -> bool {
        self.direct.len() == DIRECT && self.hashed.wf()
    }

    /// No history anywhere, over a hashed table of `n` addressed bytes.
    pub open spec fn fresh(n: int) -> Self {
        HistoriesModel {
            direct: Seq::new(DIRECT as nat, |i: int| 0u8),
            hashed: HashTableModel::fresh(n),
        }
    }

    /// Number of bytes in the table `r` points into.
    pub open spec fn extent(self, r: StateRef) -> int {
        match r {
            StateRef::Direct(_) => self.direct.len() as int,
            StateRef::Hashed(_) => self.hashed.t.len() as int,
        }
    }

    /// `r` points into its table.
    pub open spec fn valid(self, r: StateRef) -> bool {
        r.index() < self.extent(r)
    }

    /// The two tables are as long as those of `other`.
    pub open spec fn sized_like(self, other: HistoriesModel) -> bool {
        &&& self.direct.len() == other.direct.len()
        &&& self.hashed.t.len() == other.hashed.t.len()
        &&& self.hashed.size == other.hashed.size
    }

    /// The history at `r`.
    pub open spec fn get(self, r: StateRef) -> u8 {
        match r {
            StateRef::Direct(i) => self.direct[i as int],
            StateRef::Hashed(i) => self.hashed.t[i as int],
        }
    }

    /// The histories with `v` at `r`.
    pub open spec fn set(self, r: StateRef, v: u8) -> Self {
        match r {
            StateRef::Direct(i) => HistoriesModel { direct: self.direct.update(i as int, v), ..self },
            StateRef::Hashed(i) => HistoriesModel {
                hashed: HashTableModel { t: self.hashed.t.update(i as int, v), ..self.hashed },
                ..self
            },
        }
    }

    /// The histories after the hashed table has looked up `key`.
    pub open spec fn hash(self, key: u32) -> Self {
        HistoriesModel { hashed: self.hashed.hash(key), ..self }
    }
}

/// The bit histories shared by the context models.
pub struct Histories {
    direct: Vec<u8>,
    hashed: HashTable,
}

impl View for Histories {
    type V = HistoriesModel;

    closed spec fn view(&self) -> HistoriesModel {
        HistoriesModel { direct: self.direct@, hashed: self.hashed@ }
    }
}

impl Histories {
    /// Well-formed: its content is.
    pub open spec fn wf(&self) -> bool {
        self@.wf()
    }

    /// Empty histories with a hashed table of `n` addressed bytes.
    pub fn new(n: usize) -> (h: Self)
        requires
            n >= 64,
            power_of_two(n as int),
            n + PADDING <= usize::MAX,
        ensures
            h.wf(),
            h@ == HistoriesModel::fresh(n as int),
    {
        let h = Histories { direct: vec![0u8; DIRECT], hashed: HashTable::new(n) };
        assert(h@.direct =~= HistoriesModel::fresh(n as int).direct);
        h
    }

    /// The history at `r`.
    pub fn get(&self, r: StateRef) -> (v: u8)
        requires
            self@.valid(r),
        ensures
            v == self@.get(r),
    {
        match r {
            StateRef::Direct(i) => self.direct[i],
            StateRef::Hashed(i) => self.hashed.get(i),
        }
    }

    /// Puts `v` at `r`.
    pub fn set(&mut self, r: StateRef, v: u8)
        requires
            old(self)@.valid(r),
        ensures
            final(self)@ == old(self)@.set(r, v),
    {
        match r {
            StateRef::Direct(i) => {
                self.direct[i] = v;
            },
            StateRef::Hashed(i) => {
                self.hashed.set(i, v);
            },
        }
    }

    /// Looks `key` up in the hashed table and returns the first history
    /// of its slot.
    pub fn hash(&mut self, key: u32) -> (r: StateRef)
        requires
            old(self).wf(),
        ensures
            final(self).wf(),
            final(self)@ == old(self)@.hash(key),
            r == StateRef::Hashed((old(self)@.hashed.slot(key) + 1) as usize),
            r.index() % 16 == 1,
            final(self)@.valid(r),
            final(self)@.sized_like(old(self)@),
    {
        proof {
            lemma_slot_bounds(self@.hashed, key);
        }
        let slot: usize = self.hashed.hash(key);
        StateRef::Hashed(slot + 1)
    }
}

/// The reference `bit + 1` times `2^(k - 1)` bytes behind `state`: the
/// next place of the walk through a slot, `k` bits into a half-byte.
fn walked(state: StateRef, bit: i32, k: usize, hist: &Histories) -> (next: StateRef)
    requires
        bit == 0 || bit == 1,
        1 <= k <= 3,
        hist.wf(),
        hist@.valid(state),
        state.index() % 16 < two_to(k as int),
    ensures
        next == state.add((bit + 1) * two_to(k - 1)),
        hist@.valid(next),
        next.index() % 16 < two_to(k + 1),
{
    let j: usize = if k == 1 {
        1
    } else if k == 2 {
        2
    } else {
        4
    };
    let step: usize = ((bit as usize) + 1) * j;
    assert(step == (bit + 1) * two_to(k - 1));
    assert(step <= two_to(k as int));
    let ghost extent = hist@.extent(state);
    assert(extent % 16 == 0);
    assert(state.index() + step < extent && (state.index() + step) % 16 == state.index() % 16
        + step) by {
        lemma_walk_in_slot(state.index(), step as int, extent);
    }
    match state {
        StateRef::Direct(i) => StateRef::Direct(i + step),
        StateRef::Hashed(i) => StateRef::Hashed(i + step),
    }
}

/// A step that stays below 16 within a slot stays within the table.
pub proof fn lemma_walk_in_slot(index: int, step: int, extent: int)
    requires
        0 <= index < extent,
        extent % 16 == 0,
        0 <= step,
        index % 16 + step < 16,
    ensures
        index + step < extent,
        (index + step) % 16 == index % 16 + step,
{
}

/// Which bytes a context model looks at.
#[derive(Clone, Copy, PartialEq, Eq, Structural, Debug)]
pub enum Order {
    /// The last byte, indexed directly.
    One,
    /// The last two bytes.
    Two,
    /// The last three bytes.
    Three,
    /// The last four bytes.
    Four,
    /// A rolling hash reaching about six bytes back.
    Six,
    /// The letters of the current word, folded to lower case.
    Word,
}

/// The key of the context that starts after the whole byte `byte`, given
/// the previous key and the last four bytes `cxt4` (latest lowest).
#[verifier::opaque]
pub open spec fn next_key(order: Order, key: u32, cxt4: u32, byte: u32) -> u32 {
    match order {
        Order::One => (byte * 256) as u32,
        Order::Two => ((cxt4 % 0x1_0000) * 32 + 0x5700_0000) as u32,
        Order::Three => (((cxt4 % 0x100_0000) * 256) as u32).wrapping_mul(3),
        Order::Four => cxt4.wrapping_mul(5),
        Order::Six => ((key * 352 + byte * 13) % 0x4000_0000) as u32,
        Order::Word => if 65 <= byte <= 90 {
            key.wrapping_add((byte + 32) as u32).wrapping_mul(56)
        } else if 97 <= byte <= 122 {
            key.wrapping_add(byte).wrapping_mul(56)
        } else {
            0
        },
    }
}

/// Mathematical content of a [`ContextModel`].
pub struct ContextState {
    pub order: Order,
    /// Number of bits of the current byte seen so far.
    pub bits: int,
    /// Those bits behind a leading one.
    pub cxt: u32,
    /// The last four whole bytes, latest lowest.
    pub cxt4: u32,
    /// Key of the context made of whole bytes.
    pub key: u32,
    /// The history of the current context.
    pub state: StateRef,
    pub sm: StateMapModel,
}

/// Whether a context model is well-formed depends on the histories only
/// through the lengths of their tables.
pub proof fn lemma_wf_sized_like(c: ContextState, h1: HistoriesModel, h2: HistoriesModel)
    requires
        c.wf(h1),
        h2.sized_like(h1),
    ensures
        c.wf(h2),
{
}

impl ContextState {
    /// A model that has seen nothing: it points at the first direct
    /// history.
    pub open spec fn fresh(order: Order) -> Self {
        ContextState {
            order,
            bits: 0,
            cxt: 1,
            cxt4: 0,
            key: 0,
            state: StateRef::Direct(0),
            sm: StateMapModel::fresh(StateMapKind::Lpaq1, 256),
        }
    }

    /// Well-formed with respect to the histories `h`: within a byte, the
    /// history reference has room for the walk over the remaining bits of
    /// the half-byte.
    pub open spec fn wf(self, h: HistoriesModel) -> bool {
        &&& 0 <= self.bits < 8
        &&& two_to(self.bits) <= self.cxt < two_to(self.bits + 1)
        &&& self.sm.wf()
        &&& self.sm.kind == StateMapKind::Lpaq1
        &&& self.sm.entries.len() == 256
        &&& h.valid(self.state)
        &&& self.order == Order::One ==> self.key <= 0xFF00
        &&& self.order != Order::One ==> self.state.index() % 16 < two_to(self.bits % 4 + 1)
    }

    /// The model after `bit`, before it has chosen its next history.
    pub open spec fn shifted(self, bit: int) -> Self {
        let cxt = self.cxt * 2 + bit;
        if cxt >= 256 {
            let byte = (cxt - 256) as u32;
            let cxt4 = ((self.cxt4 % 0x100_0000) * 256 + byte) as u32;
            ContextState {
                bits: 0,
                cxt: 1,
                cxt4,
                key: next_key(self.order, self.key, cxt4, byte),
                ..self
            }
        } else {
            ContextState { bits: self.bits + 1, cxt: cxt as u32, ..self }
        }
    }

    /// What the shifted model looks up in the hashed table, if anything:
    /// its key at the start of a byte, its key plus the bits so far in the
    /// middle of one.
    pub open spec fn lookup(self) -> Option<u32> {
        if self.order == Order::One {
            None
        } else if self.bits == 0 {
            Some(self.key)
        } else if self.bits == 4 {
            Some(self.key.wrapping_add(self.cxt))
        } else {
            None
        }
    }

    /// The histories after `bit`: the current history advances, then the
    /// hashed table makes room for a new context if one starts.
    pub open spec fn histories(self, bit: int, h: HistoriesModel) -> HistoriesModel {
        let h1 = h.set(self.state, next_state_spec(h.get(self.state), bit));
        match self.shifted(bit).lookup() {
            Some(key) => h1.hash(key),
            None => h1,
        }
    }

    /// The model after `bit`: at the start and in the middle of a byte it
    /// points at the first history of the slot it looked up; elsewhere it
    /// moves on within its slot, by 1 or 2, 2 or 4, 4 or 8 for a zero or a
    /// one. The order-1 model points at the history indexed by the last
    /// byte and the bits so far.
    pub open spec fn update(self, bit: int, h: HistoriesModel) -> Self {
        let h1 = h.set(self.state, next_state_spec(h.get(self.state), bit));
        let s = self.shifted(bit);
        let state = if s.order == Order::One {
            StateRef::Direct((s.key + s.cxt) as usize)
        } else {
            match s.lookup() {
                Some(key) => StateRef::Hashed((h1.hashed.slot(key) + 1) as usize),
                None => self.state.add((bit + 1) * two_to(s.bits % 4 - 1)),
            }
        };
        ContextState { state, ..s }
    }

    /// The model after `bit` and a prediction in its new context.
    pub open spec fn predict(self, bit: int, h: HistoriesModel) -> Self {
        let u = self.update(bit, h);
        ContextState { sm: u.sm.predict(bit, self.histories(bit, h).get(u.state) as int), ..u }
    }
}

/// A context model of any order.
pub struct ContextModel {
    order: Order,
    bits: usize,
    cxt: u32,
    cxt4: u32,
    key: u32,
    state: StateRef,
    sm: StateMap,
}

impl View for ContextModel {
    type V = ContextState;

    closed spec fn view(&self) -> ContextState {
        ContextState {
            order: self.order,
            bits: self.bits as int,
            cxt: self.cxt,
            cxt4: self.cxt4,
            key: self.key,
            state: self.state,
            sm: self.sm@,
        }
    }
}

impl ContextModel {
    /// Well-formed with respect to the histories `h`: its content is.
    pub open spec fn wf(&self, h: HistoriesModel) -> bool {
        self@.wf(h)
    }

    /// A model of the given order that has seen nothing.
    pub fn new(order: Order) -> (cm: Self)
        ensures
            cm@ == ContextState::fresh(order),
            forall|h: HistoriesModel| h.wf() ==> cm.wf(h),
    {
        ContextModel {
            order,
            bits: 0,
            cxt: 1,
            cxt4: 0,
            key: 0,
            state: StateRef::Direct(0),
            sm: StateMap::new(StateMapKind::Lpaq1, 256),
        }
    }

    /// The bits of the current byte behind a leading one.
    pub fn cxt(&self) -> (c: u32)
        ensures
            c == self@.cxt,
    {
        self.cxt
    }

    /// Key of the whole-byte context.
    pub fn key(&self) -> (k: u32)
        ensures
            k == self@.key,
    {
        self.key
    }

    /// The history of the current context.
    pub fn state(&self) -> (r: StateRef)
        ensures
            r == self@.state,
    {
        self.state
    }

    /// Takes in `bit` and predicts the next one.
    pub fn p(&mut self, bit: i32, hist: &mut Histories) -> (pr: i32)
        requires
            old(self).wf(old(hist)@),
            old(hist).wf(),
            bit == 0 || bit == 1,
        ensures
            final(hist).wf(),
            final(self).wf(final(hist)@),
            final(self)@ == old(self)@.predict(bit as int, old(hist)@),
            final(hist)@ == old(self)@.histories(bit as int, old(hist)@),
            final(hist)@.sized_like(old(hist)@),
            pr == final(self)@.sm.probability(),
            0 <= pr <= 4095,
    {
        self.update(bit, hist);
        let s: u8 = hist.get(self.state);
        self.sm.p(bit, s as usize)
    }

    /// Takes in `bit` and moves to the history of the new context.
    pub fn update(&mut self, bit: i32, hist: &mut Histories)
        requires
            old(self).wf(old(hist)@),
            old(hist).wf(),
            bit == 0 || bit == 1,
        ensures
            final(hist).wf(),
            final(self).wf(final(hist)@),
            final(self)@ == old(self)@.update(bit as int, old(hist)@),
            final(hist)@ == old(self)@.histories(bit as int, old(hist)@),
            final(hist)@.sized_like(old(hist)@),
    {
        let next: u8 = next_state(hist.get(self.state), bit);
        hist.set(self.state, next);
        self.shift(bit);
        match self.order {
            Order::One => {
                self.state = StateRef::Direct((self.key + self.cxt) as usize);
            },
            _ => {
                self.choose_history(bit, hist);
            },
        }
    }

    /// Takes `bit` into the context; at the end of a byte, derives the
    /// next key.
    fn shift(&mut self, bit: i32)
        requires
            bit == 0 || bit == 1,
            0 <= old(self)@.bits < 8,
            two_to(old(self)@.bits) <= old(self)@.cxt < two_to(old(self)@.bits + 1),
            old(self)@.order == Order::One ==> old(self)@.key <= 0xFF00,
        ensures
            final(self)@ == old(self)@.shifted(bit as int),
            0 <= final(self)@.bits < 8,
            final(self)@.bits == (old(self)@.bits + 1) % 8,
            two_to(final(self)@.bits) <= final(self)@.cxt < two_to(final(self)@.bits + 1),
            final(self)@.order == Order::One ==> final(self)@.key <= 0xFF00,
    {
        self.cxt = self.cxt * 2 + (bit as u32);
        self.bits += 1;
        if self.cxt >= 256 {
            self.cxt -= 256;
            self.cxt4 = (self.cxt4 % 0x100_0000) * 256 + self.cxt;
            self.key = self.following_key();
            self.cxt = 1;
            self.bits = 0;
        }
    }

    /// Points a hashed model at the history of its new context.
    fn choose_history(&mut self, bit: i32, hist: &mut Histories)
        requires
            bit == 0 || bit == 1,
            old(hist).wf(),
            old(self)@.order != Order::One,
            0 <= old(self)@.bits < 8,
            old(hist)@.valid(old(self)@.state),
            old(self)@.bits % 4 != 0 ==> old(self)@.state.index() % 16 < two_to(
                old(self)@.bits % 4,
            ),
        ensures
            final(hist).wf(),
            final(hist)@ == match old(self)@.lookup() {
                Some(key) => old(hist)@.hash(key),
                None => old(hist)@,
            },
            final(self)@ == (ContextState {
                state: match old(self)@.lookup() {
                    Some(key) => StateRef::Hashed((old(hist)@.hashed.slot(key) + 1) as usize),
                    None => old(self)@.state.add((bit + 1) * two_to(old(self)@.bits % 4 - 1)),
                },
                ..old(self)@
            }),
            final(hist)@.valid(final(self)@.state),
            final(hist)@.sized_like(old(hist)@),
            final(self)@.state.index() % 16 < two_to(final(self)@.bits % 4 + 1),
    {
        if self.bits == 0 {
            self.state = hist.hash(self.key);
        } else if self.bits == 4 {
            self.state = hist.hash(self.key.wrapping_add(self.cxt));
        } else {
            self.state = walked(self.state, bit, self.bits % 4, hist);
        }
    }

    /// The key that follows the byte now in `cxt`.
    fn following_key(&self) -> (key: u32)
        requires
            self.cxt < 256,
        ensures
            key == next_key(self.order, self.key, self.cxt4, self.cxt),
            self.order == Order::One ==> key <= 0xFF00,
    {
        proof {
            reveal(next_key);
        }
        match self.order {
            Order::One => self.cxt * 256,
            Order::Two => (self.cxt4 % 0x1_0000) * 32 + 0x5700_0000,
            Order::Three => ((self.cxt4 % 0x100_0000) * 256).wrapping_mul(3),
            Order::Four => self.cxt4.wrapping_mul(5),
            Order::Six => ((((self.key as u64) * 352 + (self.cxt as u64) * 13)) % 0x4000_0000) as u32,
            Order::Word => {
                if 65 <= self.cxt && self.cxt <= 90 {
                    self.key.wrapping_add(self.cxt + 32).wrapping_mul(56)
                } else if 97 <= self.cxt && self.cxt <= 122 {
                    self.key.wrapping_add(self.cxt).wrapping_mul(56)
                } else {
                    0
                }
            },
        }
    }
}

} // verus!
