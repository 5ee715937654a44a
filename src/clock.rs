//! The CLOCK (second-chance) page replacement engine.
use vstd::prelude::*;

verus! {

/// A page resident in a frame slot, with its reference bit.
#[derive(Clone, Copy, Debug, PartialEq, Eq, Structural)]
pub struct Page {
    pub number: i32,
    pub reference: bool,
}

/// Frame slots swept by a circulating hand; slot `i` stands for physical frame `i`.
pub struct Clock {
    capacity: usize,
    hand: usize,
    frames: Vec<Option<Page>>,
    page_faults: usize,
}

/// The abstract state of a CLOCK engine.
pub struct ClockModel {
    pub hand: int,
    pub frames: Seq<Option<Page>>,
    pub faults: nat,
}

/// The slot holds the page numbered `p`.
pub open spec fn occupied_by(slot: Option<Page>, p: i32) -> bool {
    match slot {
        Some(pg) => pg.number == p,
        None => false,
    }
}

/// The sweep may place a page in this slot: it is empty or its reference bit is clear.
pub open spec fn is_candidate(slot: Option<Page>) -> bool {
    match slot {
        Some(pg) => !pg.reference,
        None => true,
    }
}

/// The slot after the sweep has given it a second chance.
pub open spec fn cleared(slot: Option<Page>) -> Option<Page> {
    match slot {
        Some(pg) => Some(Page { number: pg.number, reference: false }),
        None => None,
    }
}

/// `x` reduced into `[0, n)`, for `x` in `[0, 2n)`.
pub open spec fn wrap(x: int, n: int) -> int {
    if x < n {
        x
    } else {
        x - n
    }
}

/// Distance of the first candidate slot at or after distance `d` clockwise
/// from `hand`, or the number of slots if there is none.
pub open spec fn sweep_len(frames: Seq<Option<Page>>, hand: int, d: int) -> int
    decreases frames.len() - d,
{
    if d >= frames.len() {
        frames.len() as int
    } else if is_candidate(frames[wrap(hand + d, frames.len() as int)]) {
        d
    } else {
        sweep_len(frames, hand, d + 1)
    }
}

impl ClockModel {
    pub open spec fn capacity(self) -> int {
        self.frames.len() as int
    }

    /// The hand points at a slot, and no page is held by two slots.
    pub open spec fn wf(self) -> bool {
        &&& 0 <= self.hand
        &&& (self.hand < self.capacity() || (self.capacity() == 0 && self.hand == 0))
        &&& forall|i: int, j: int, p: i32|
            0 <= i < self.capacity() && 0 <= j < self.capacity() && #[trigger] occupied_by(
                self.frames[i],
                p,
            ) && #[trigger] occupied_by(self.frames[j], p) ==> i == j
    }

    /// Some slot holds the page numbered `p`.
    pub open spec fn holds(self, p: i32) -> bool {
        exists|i: int| 0 <= i < self.capacity() && #[trigger] occupied_by(self.frames[i], p)
    }

    /// No slot is empty.
    pub open spec fn is_full(self) -> bool {
        forall|i: int| 0 <= i < self.capacity() ==> #[trigger] self.frames[i] is Some
    }

    /// Clockwise distance of slot `j` from the hand.
    pub open spec fn dist(self, j: int) -> int {
        if j >= self.hand {
            j - self.hand
        } else {
            j - self.hand + self.capacity()
        }
    }

    /// How many slots the sweep passes before it stops (the capacity if it
    /// makes a full turn).
    pub open spec fn sweep(self) -> int {
        sweep_len(self.frames, self.hand, 0)
    }

    /// The slot that receives a page that is not resident.
    pub open spec fn victim(self) -> int {
        wrap(self.hand + self.sweep(), self.capacity())
    }

    /// Frames after a resident page `p` is touched: its reference bit is set.
    pub open spec fn touched(self, p: i32) -> Seq<Option<Page>> {
        self.frames.map_values(
            |s: Option<Page>|
                if occupied_by(s, p) {
                    Some(Page { number: p, reference: true })
                } else {
                    s
                },
        )
    }

    /// Frames after the sweep places page `p`: the slots passed lose their
    /// reference bit and the victim slot holds `p`, referenced.
    pub open spec fn swept(self, p: i32) -> Seq<Option<Page>> {
        Seq::new(
            self.frames.len(),
            |j: int|
                if j == self.victim() {
                    Some(Page { number: p, reference: true })
                } else if self.dist(j) < self.sweep() {
                    cleared(self.frames[j])
                } else {
                    self.frames[j]
                },
        )
    }

    /// The state after `insert(p)` and the page it reports evicted.
    pub open spec fn inserted(self, p: i32) -> (ClockModel, Option<i32>) {
        if self.holds(p) {
            (ClockModel { hand: self.hand, frames: self.touched(p), faults: self.faults }, None)
        } else {
            (
                ClockModel {
                    hand: wrap(self.victim() + 1, self.capacity()),
                    frames: self.swept(p),
                    faults: self.faults + 1,
                },
                match self.frames[self.victim()] {
                    Some(pg) => Some(pg.number),
                    None => None,
                },
            )
        }
    }
}

pub proof fn lemma_sweep_len_stops(frames: Seq<Option<Page>>, hand: int, a: int, k: int)
    requires
        0 <= a <= k < frames.len(),
        forall|d: int| a <= d < k ==> !is_candidate(#[trigger] frames[wrap(hand + d, frames.len() as int)]),
        is_candidate(frames[wrap(hand + k, frames.len() as int)]),
    ensures
        sweep_len(frames, hand, a) == k,
    decreases k - a,
{
    if a < k {
        lemma_sweep_len_stops(frames, hand, a + 1, k);
    }
}

pub proof fn lemma_sweep_len_full(frames: Seq<Option<Page>>, hand: int, a: int)
    requires
        0 <= a <= frames.len(),
        forall|d: int| a <= d < frames.len() ==> !is_candidate(#[trigger] frames[wrap(hand + d, frames.len() as int)]),
    ensures
        sweep_len(frames, hand, a) == frames.len(),
    decreases frames.len() - a,
{
    if a < frames.len() {
        lemma_sweep_len_full(frames, hand, a + 1);
    }
}

proof fn lemma_sweep_len_range(frames: Seq<Option<Page>>, hand: int, d: int)
    requires
        0 <= d <= frames.len(),
    ensures
        d <= sweep_len(frames, hand, d) <= frames.len(),
    decreases frames.len() - d,
{
    if d < frames.len() {
        lemma_sweep_len_range(frames, hand, d + 1);
    }
}

/// The sweep stops within one turn, on a slot of the engine.
pub proof fn lemma_sweep_bounds(m: ClockModel)
    requires
        m.wf(),
        m.capacity() > 0,
    ensures
        0 <= m.sweep() <= m.capacity(),
        0 <= m.victim() < m.capacity(),
        m.sweep() < m.capacity() ==> m.dist(m.victim()) == m.sweep(),
        m.sweep() == m.capacity() ==> m.victim() == m.hand,
{
    lemma_sweep_len_range(m.frames, m.hand, 0);
}

/// Every insertion keeps the engine well formed, and keeps the page held
/// by each slot but the victim.
pub proof fn lemma_inserted_wf(m: ClockModel, p: i32)
    requires
        m.wf(),
        m.capacity() > 0,
    ensures
        m.inserted(p).0.wf(),
        m.inserted(p).0.capacity() == m.capacity(),
        !m.holds(p) ==> forall|j: int, q: i32|
            0 <= j < m.capacity() && j != m.victim() ==> (#[trigger] occupied_by(
                m.inserted(p).0.frames[j],
                q,
            ) <==> occupied_by(m.frames[j], q)),
        !m.holds(p) ==> forall|j: int|
            0 <= j < m.capacity() && j != m.victim() ==> (#[trigger] m.inserted(p).0.frames[j] is Some
                <==> m.frames[j] is Some),
        !m.holds(p) ==> m.inserted(p).0.frames[m.victim()] == Some(Page { number: p, reference: true }),
{
    let n = m.capacity();
    let r = m.inserted(p).0;
    lemma_sweep_bounds(m);
    if m.holds(p) {
        assert forall|a: int, b: int, q: i32|
            0 <= a < n && 0 <= b < n && #[trigger] occupied_by(r.frames[a], q)
                && #[trigger] occupied_by(r.frames[b], q) implies a == b by {
            assert(occupied_by(m.frames[a], q));
            assert(occupied_by(m.frames[b], q));
        }
    } else {
        assert forall|a: int, b: int, q: i32|
            0 <= a < n && 0 <= b < n && #[trigger] occupied_by(r.frames[a], q)
                && #[trigger] occupied_by(r.frames[b], q) implies a == b by {
            if a != m.victim() {
                assert(occupied_by(m.frames[a], q));
            }
            if b != m.victim() {
                assert(occupied_by(m.frames[b], q));
            }
        }
    }
}

impl ClockModel {
    /// The state after inserting each page of `pages` in order.
    pub open spec fn inserted_all(self, pages: Seq<i32>) -> ClockModel
        decreases pages.len(),
    {
        if pages.len() == 0 {
            self
        } else {
            self.inserted_all(pages.drop_last()).inserted(pages.last()).0
        }
    }

    /// How many insertions of `pages`, in order, find their page resident.
    pub open spec fn resident_hits(self, pages: Seq<i32>) -> nat
        decreases pages.len(),
    {
        if pages.len() == 0 {
            0
        } else {
            self.resident_hits(pages.drop_last()) + if self.inserted_all(pages.drop_last()).holds(
                pages.last(),
            ) {
                1nat
            } else {
                0nat
            }
        }
    }
}

/// Over any sequence of insertions, the faults counted are the insertions
/// that did not find their page resident, and the engine stays well formed.
pub proof fn lemma_faults_are_misses(m: ClockModel, pages: Seq<i32>)
    requires
        m.wf(),
        m.capacity() > 0,
    ensures
        m.inserted_all(pages).wf(),
        m.inserted_all(pages).capacity() == m.capacity(),
        m.inserted_all(pages).faults + m.resident_hits(pages) == m.faults + pages.len(),
    decreases pages.len(),
{
    if pages.len() > 0 {
        lemma_faults_are_misses(m, pages.drop_last());
        lemma_inserted_wf(m.inserted_all(pages.drop_last()), pages.last());
    }
}

/// The engine evicts a page only from a slot whose reference bit is clear,
/// or, when every slot is referenced, from the slot under the hand after the
/// sweep has cleared them all.
pub proof fn lemma_evicts_unreferenced(m: ClockModel, p: i32)
    requires
        m.wf(),
        m.capacity() > 0,
        m.inserted(p).1 is Some,
    ensures
        m.frames[m.victim()] is Some,
        m.frames[m.victim()]->0.number == m.inserted(p).1->0,
        !m.frames[m.victim()]->0.reference || (m.victim() == m.hand && forall|j: int|
            0 <= j < m.capacity() ==> (#[trigger] m.frames[j] matches Some(q) && q.reference)),
{
    lemma_sweep_bounds(m);
    let v = m.victim();
    if m.sweep() < m.capacity() {
        assert(m.sweep() == sweep_len(m.frames, m.hand, 0));
        lemma_sweep_len_candidate(m.frames, m.hand, 0);
    } else {
        assert forall|j: int| 0 <= j < m.capacity() implies (#[trigger] m.frames[j] matches Some(q)
            && q.reference) by {
            lemma_sweep_len_passed(m.frames, m.hand, 0, m.dist(j));
            assert(wrap(m.hand + m.dist(j), m.capacity()) == j);
        }
    }
}

proof fn lemma_sweep_len_candidate(frames: Seq<Option<Page>>, hand: int, d: int)
    requires
        0 <= d,
        sweep_len(frames, hand, d) < frames.len(),
    ensures
        is_candidate(frames[wrap(hand + sweep_len(frames, hand, d), frames.len() as int)]),
    decreases frames.len() - d,
{
    if d < frames.len() && !is_candidate(frames[wrap(hand + d, frames.len() as int)]) {
        lemma_sweep_len_candidate(frames, hand, d + 1);
    }
}

proof fn lemma_sweep_len_passed(frames: Seq<Option<Page>>, hand: int, d: int, e: int)
    requires
        0 <= d <= e < sweep_len(frames, hand, d),
    ensures
        !is_candidate(frames[wrap(hand + e, frames.len() as int)]),
    decreases frames.len() - d,
{
    if d < e {
        lemma_sweep_len_passed(frames, hand, d + 1, e);
    }
}

/// Inserting a resident page changes no slot's page, nor the hand or the
/// fault count: it only sets that page's reference bit.
pub proof fn lemma_resident_insert(m: ClockModel, p: i32)
    requires
        m.wf(),
        m.holds(p),
    ensures
        m.inserted(p).1 is None,
        m.inserted(p).0.hand == m.hand,
        m.inserted(p).0.faults == m.faults,
        m.inserted(p).0.capacity() == m.capacity(),
        forall|j: int, q: i32|
            0 <= j < m.capacity() ==> (#[trigger] occupied_by(m.inserted(p).0.frames[j], q)
                <==> occupied_by(m.frames[j], q)),
        forall|j: int|
            0 <= j < m.capacity() && #[trigger] occupied_by(m.frames[j], p) ==> m.inserted(p).0.frames[j]
                == Some(Page { number: p, reference: true }),
{
}

/// An engine of `n` empty slots, hand at slot 0, no faults.
pub open spec fn fresh(n: nat) -> ClockModel {
    ClockModel { hand: 0, frames: Seq::new(n, |i: int| None::<Page>), faults: 0 }
}

/// The pages of `s` are pairwise distinct.
pub open spec fn distinct(s: Seq<i32>) -> bool {
    forall|i: int, j: int| 0 <= i < s.len() && 0 <= j < s.len() && i != j ==> s[i] != s[j]
}

proof fn lemma_warm_up_state(n: nat, pages: Seq<i32>, i: int)
    requires
        n > 0,
        distinct(pages),
        pages.len() <= n,
        0 <= i <= pages.len(),
    ensures
        ({
            let m = fresh(n).inserted_all(pages.take(i));
            &&& m.wf()
            &&& m.capacity() == n
            &&& m.hand == wrap(i, n as int)
            &&& m.faults == i
            &&& forall|j: int|
                0 <= j < n ==> #[trigger] m.frames[j] == if j < i {
                    Some(Page { number: pages[j], reference: true })
                } else {
                    None
                }
        }),
    decreases i,
{
    let m = fresh(n).inserted_all(pages.take(i));
    if i == 0 {
        assert(pages.take(0) =~= Seq::<i32>::empty());
    } else {
        lemma_warm_up_state(n, pages, i - 1);
        let prev = fresh(n).inserted_all(pages.take(i - 1));
        assert(pages.take(i).drop_last() =~= pages.take(i - 1));
        assert(pages.take(i).last() == pages[i - 1]);
        let p = pages[i - 1];
        assert(!prev.holds(p)) by {
            if prev.holds(p) {
                let j = choose|j: int| 0 <= j < prev.capacity() && #[trigger] occupied_by(prev.frames[j], p);
                assert(prev.frames[j] is Some);
            }
        }
        assert(prev.frames[i - 1] is None);
        lemma_sweep_len_stops(prev.frames, prev.hand, 0, 0);
        lemma_inserted_wf(prev, p);
        assert(m.frames.len() == n);
    }
}

/// Warm-up: inserting distinct pages into an engine of `n` empty slots
/// evicts nothing for the first `n` of them, and once those `n` fill it,
/// a page not among them evicts exactly one page, one of those `n`.
pub proof fn lemma_warm_up(n: nat, pages: Seq<i32>, q: i32)
    requires
        n > 0,
        distinct(pages),
        pages.len() <= n,
    ensures
        forall|i: int|
            0 <= i < pages.len() ==> (#[trigger] fresh(n).inserted_all(pages.take(i)).inserted(
                pages[i],
            )).1 is None,
        pages.len() == n && !pages.contains(q) ==> ((fresh(n).inserted_all(pages).inserted(q).1
            matches Some(e)) && pages.contains(fresh(n).inserted_all(pages).inserted(q).1->0)),
{
    assert forall|i: int| 0 <= i < pages.len() implies (#[trigger] fresh(n).inserted_all(
        pages.take(i),
    ).inserted(pages[i])).1 is None by {
        lemma_warm_up_state(n, pages, i);
        let m = fresh(n).inserted_all(pages.take(i));
        let p = pages[i];
        assert(!m.holds(p)) by {
            if m.holds(p) {
                let j = choose|j: int| 0 <= j < m.capacity() && #[trigger] occupied_by(m.frames[j], p);
                assert(m.frames[j] is Some);
            }
        }
        assert(m.frames[i] is None);
        lemma_sweep_len_stops(m.frames, m.hand, 0, 0);
    }
    if pages.len() == n && !pages.contains(q) {
        lemma_warm_up_state(n, pages, n as int);
        assert(pages.take(n as int) =~= pages);
        let m = fresh(n).inserted_all(pages);
        assert(!m.holds(q)) by {
            if m.holds(q) {
                let j = choose|j: int| 0 <= j < m.capacity() && #[trigger] occupied_by(m.frames[j], q);
                assert(m.frames[j] is Some);
                assert(pages[j] == q);
            }
        }
        lemma_sweep_bounds(m);
        let v = m.victim();
        assert(m.frames[v] is Some);
        assert(pages[v] == m.inserted(q).1->0);
    }
}

/// The decimal digit `d`, for `d < 10`.
pub open spec fn digit_char(d: nat) -> char {
    if d == 0 {
        '0'
    } else if d == 1 {
        '1'
    } else if d == 2 {
        '2'
    } else if d == 3 {
        '3'
    } else if d == 4 {
        '4'
    } else if d == 5 {
        '5'
    } else if d == 6 {
        '6'
    } else if d == 7 {
        '7'
    } else if d == 8 {
        '8'
    } else {
        '9'
    }
}

/// The decimal numeral of `n`, without leading zeros.
pub open spec fn decimal(n: nat) -> Seq<char>
    decreases n,
{
    if n < 10 {
        seq![digit_char(n)]
    } else {
        decimal(n / 10).push(digit_char(n % 10))
    }
}

/// The decimal numeral of `n`, with a minus sign when negative.
pub open spec fn int_text(n: int) -> Seq<char> {
    if n < 0 {
        seq!['-'] + decimal((-n) as nat)
    } else {
        decimal(n as nat)
    }
}

/// A slot as rendered: a marker (an arrow under the hand, else a space),
/// then `[number|bit]` for a page or `[   ]` for an empty slot.
pub open spec fn slot_text(slot: Option<Page>, at_hand: bool) -> Seq<char> {
    (if at_hand {
        seq!['\u{2190}']
    } else {
        seq![' ']
    }) + match slot {
        Some(pg) => seq!['['] + int_text(pg.number as int) + seq![
            '|',
            if pg.reference {
                '1'
            } else {
                '0'
            },
            ']',
        ],
        None => seq!['[', ' ', ' ', ' ', ']'],
    }
}

/// The first `i` slots rendered, separated by single spaces.
pub open spec fn state_text(frames: Seq<Option<Page>>, hand: int, i: int) -> Seq<char>
    decreases i,
{
    if i <= 0 {
        Seq::empty()
    } else if i == 1 {
        slot_text(frames[0], hand == 0)
    } else {
        state_text(frames, hand, i - 1) + seq![' '] + slot_text(frames[i - 1], hand == i - 1)
    }
}

fn digit_str(d: u32) -> (r: &'static str)
    requires
        d < 10,
    ensures
        r@ == seq![digit_char(d as nat)],
{
    if d == 0 {
        proof {
            reveal_strlit("0");
        }
        "0"
    } else if d == 1 {
        proof {
            reveal_strlit("1");
        }
        "1"
    } else if d == 2 {
        proof {
            reveal_strlit("2");
        }
        "2"
    } else if d == 3 {
        proof {
            reveal_strlit("3");
        }
        "3"
    } else if d == 4 {
        proof {
            reveal_strlit("4");
        }
        "4"
    } else if d == 5 {
        proof {
            reveal_strlit("5");
        }
        "5"
    } else if d == 6 {
        proof {
            reveal_strlit("6");
        }
        "6"
    } else if d == 7 {
        proof {
            reveal_strlit("7");
        }
        "7"
    } else if d == 8 {
        proof {
            reveal_strlit("8");
        }
        "8"
    } else {
        proof {
            reveal_strlit("9");
        }
        "9"
    }
}

fn append_decimal(s: &mut String, n: u32)
    ensures
        final(s)@ == old(s)@ + decimal(n as nat),
    decreases n,
{
    if n >= 10 {
        append_decimal(s, n / 10);
    }
    s.append(digit_str(n % 10));
    assert(old(s)@ + decimal(n as nat) =~= final(s)@);
}

fn append_int(s: &mut String, n: i32)
    ensures
        final(s)@ == old(s)@ + int_text(n as int),
{
    if n < 0 {
        s.append("-");
        proof {
            reveal_strlit("-");
        }
        let m = (0i64 - n as i64) as u32;
        append_decimal(s, m);
        assert(final(s)@ =~= old(s)@ + int_text(n as int));
    } else {
        append_decimal(s, n as u32);
    }
}

fn append_slot(s: &mut String, slot: Option<Page>, at_hand: bool)
    ensures
        final(s)@ == old(s)@ + slot_text(slot, at_hand),
{
    proof {
        reveal_strlit("\u{2190}");
        reveal_strlit(" ");
        reveal_strlit("[");
        reveal_strlit("|1]");
        reveal_strlit("|0]");
        reveal_strlit("[   ]");
    }
    if at_hand {
        s.append("\u{2190}");
    } else {
        s.append(" ");
    }
    match slot {
        Some(pg) => {
            s.append("[");
            append_int(s, pg.number);
            if pg.reference {
                s.append("|1]");
            } else {
                s.append("|0]");
            }
        },
        None => {
            s.append("[   ]");
        },
    }
    assert(final(s)@ =~= old(s)@ + slot_text(slot, at_hand));
}

impl View for Clock {
    type V = ClockModel;

    closed spec fn view(&self) -> ClockModel {
        ClockModel { hand: self.hand as int, frames: self.frames@, faults: self.page_faults as nat }
    }
}

impl Clock {
    pub closed spec fn wf(&self) -> bool {
        &&& self.capacity == self.frames@.len()
        &&& self@.wf()
    }

    /// An engine of `capacity` empty slots, hand at slot 0, no faults counted.
    pub fn new(capacity: usize) -> (r: Self)
        ensures
            r.wf(),
            r@.wf(),
            r@.hand == 0,
            r@.faults == 0,
            r@.frames == Seq::new(capacity as nat, |i: int| None::<Page>),
    {
        let mut frames: Vec<Option<Page>> = Vec::new();
        let mut i: usize = 0;
        while i < capacity
            invariant
                i <= capacity,
                frames@ == Seq::new(i as nat, |j: int| None::<Page>),
            decreases capacity - i,
        {
            frames.push(None);
            i += 1;
        }
        Clock { capacity, hand: 0, frames, page_faults: 0 }
    }
    /// Records a reference to `page_number`. A resident page only gets its
    /// reference bit set. Otherwise a fault is counted and the hand sweeps
    /// from its position: a referenced slot loses its bit and is passed, and
    /// the first slot that is empty or unreferenced receives the page. The
    /// page that slot held, if any, is returned as evicted.
    pub fn insert(&mut self, page_number: i32) -> (evicted: Option<i32>)
        requires
            old(self).wf(),
            old(self)@.capacity() > 0,
            old(self)@.faults < usize::MAX,
        ensures
            final(self).wf(),
            (final(self)@, evicted) == old(self)@.inserted(page_number),
    {
        let n = self.frames.len();
        let mut i: usize = 0;
        while i < n
            invariant
                self.wf(),
                self@ == old(self)@,
                n == self@.capacity(),
                0 <= i <= n,
                forall|j: int| 0 <= j < i ==> !occupied_by(#[trigger] self.frames@[j], page_number),
            decreases n - i,
        {
            if let Some(pg) = self.frames[i] {
                if pg.number == page_number {
                    let ghost m = self@;
                    self.frames.set(i, Some(Page { number: page_number, reference: true }));
                    proof {
                        assert(occupied_by(m.frames[i as int], page_number));
                        assert(self.frames@ =~= m.touched(page_number));
                        lemma_inserted_wf(m, page_number);
                    }
                    return None;
                }
            }
            i += 1;
        }
        let ghost m = self@;
        proof {
            assert(!m.holds(page_number));
        }
        self.page_faults = self.page_faults + 1;
        let ghost h0 = m.hand;
        let ghost mut k: int = 0;
        loop
            invariant
                self.capacity == n,
                self.frames@.len() == n,
                n == m.capacity(),
                n > 0,
                m == old(self)@,
                m.wf(),
                !m.holds(page_number),
                h0 == m.hand,
                self.page_faults == m.faults + 1,
                0 <= k <= n,
                self.hand == wrap(h0 + k, n as int),
                forall|d: int|
                    0 <= d < k ==> !is_candidate(#[trigger] m.frames[wrap(h0 + d, n as int)]),
                forall|j: int|
                    0 <= j < n ==> #[trigger] self.frames@[j] == if m.dist(j) < k {
                        cleared(m.frames[j])
                    } else {
                        m.frames[j]
                    },
            decreases n - k,
        {
            let h = self.hand;
            match self.frames[h] {
                None => {
                    proof {
                        if k == n {
                            assert(!is_candidate(m.frames[wrap(h0 + 0, n as int)]));
                        }
                        assert(m.dist(h as int) == k);
                        lemma_sweep_len_stops(m.frames, h0, 0, k);
                        assert(m.victim() == h);
                        assert(m.frames[h as int] is None);
                    }
                    self.frames.set(h, Some(Page { number: page_number, reference: true }));
                    self.advance_hand();
                    proof {
                        assert(self.frames@ =~= m.swept(page_number));
                        lemma_inserted_wf(m, page_number);
                    }
                    return None;
                },
                Some(pg) => {
                    if !pg.reference {
                        let evicted = pg.number;
                        proof {
                            if k < n {
                                assert(m.dist(h as int) == k);
                                lemma_sweep_len_stops(m.frames, h0, 0, k);
                            } else {
                                lemma_sweep_len_full(m.frames, h0, 0);
                            }
                            assert(m.victim() == h);
                            assert(m.frames[h as int] matches Some(q) && q.number == evicted);
                        }
                        self.frames.set(h, Some(Page { number: page_number, reference: true }));
                        self.advance_hand();
                        proof {
                            assert(self.frames@ =~= m.swept(page_number));
                            lemma_inserted_wf(m, page_number);
                        }
                        return Some(evicted);
                    } else {
                        proof {
                            if k == n {
                                assert(m.dist(h as int) == 0);
                            }
                            assert(m.dist(h as int) == k);
                        }
                        self.frames.set(h, Some(Page { number: pg.number, reference: false }));
                        self.advance_hand();
                        proof {
                            k = k + 1;
                        }
                    }
                },
            }
        }
    }

    fn advance_hand(&mut self)
        requires
            old(self).capacity > 0,
            old(self).hand < old(self).capacity,
        ensures
            final(self).hand == wrap(old(self).hand + 1, old(self).capacity as int),
            final(self).capacity == old(self).capacity,
            final(self).frames == old(self).frames,
            final(self).page_faults == old(self).page_faults,
    {
        proof {
            if self.hand + 1 < self.capacity {
                vstd::arithmetic::div_mod::lemma_small_mod(
                    (self.hand + 1) as nat,
                    self.capacity as nat,
                );
            } else {
                vstd::arithmetic::div_mod::lemma_mod_self_0(self.capacity as int);
            }
        }
        self.hand = (self.hand + 1) % self.capacity;
    }

    /// The number of faults counted so far.
    pub fn page_fault_count(&self) -> (r: usize)
        ensures
            r == self@.faults,
    {
        self.page_faults
    }
    /// The slots rendered in order, separated by spaces: `[number|bit]` for
    /// a page and `[   ]` for an empty slot, each preceded by an arrow if
    /// the hand points at it and by a space otherwise.
    pub fn debug_state(&self) -> (r: String)
        requires
            self.wf(),
        ensures
            r@ == state_text(self@.frames, self@.hand, self@.capacity()),
    {
        let mut s = String::new();
        let mut i: usize = 0;
        while i < self.frames.len()
            invariant
                self.wf(),
                i <= self.frames@.len(),
                s@ == state_text(self@.frames, self@.hand, i as int),
            decreases self.frames@.len() - i,
        {
            if i > 0 {
                s.append(" ");
                proof {
                    reveal_strlit(" ");
                }
            }
            append_slot(&mut s, self.frames[i], i == self.hand);
            i += 1;
        }
        s
    }
}

} // verus!
