//! The cursor over a text, the items it emits, and the driver that runs the
//! caller's state functions.

use vstd::prelude::*;
use vstd::string::StringSliceAdditionalSpecFns;
use vstd::utf8::encode_utf8;
use vstd::utf8::encode_utf8_decode_utf8;
use crate::text::{
    byte_offset, col_at, line_at, rune_width, run_len, utf8_width, lemma_boundary,
    lemma_byte_offset_grows, lemma_byte_offset_step, lemma_encode_len, lemma_encode_split,
    lemma_line_col_bound,
};

verus! {

broadcast use vstd::string::group_string_axioms, vstd::slice::group_slice_axioms;

/// The part of `s` from byte offset `raw`, the offset of rune index `i`.
fn rest_at<'a>(s: &'a str, raw: usize, Ghost(i): Ghost<int>) -> (r: &'a str)
    requires
        0 <= i <= s@.len(),
        raw == byte_offset(s@, i),
    ensures
        r@ == s@.skip(i),
{
    proof {
        lemma_boundary(s@, i);
        lemma_encode_split(s@, i);
    }
    let (_, rest) = s.split_at(raw);
    proof {
        encode_utf8_decode_utf8(rest@);
        encode_utf8_decode_utf8(s@.skip(i));
    }
    rest
}

/// The rune at byte offset `raw` of `s`, the offset of rune index `i`, or
/// `None` at the end.
fn rune_at(s: &str, raw: usize, Ghost(i): Ghost<int>) -> (r: Option<char>)
    requires
        0 <= i <= s@.len(),
        raw == byte_offset(s@, i),
    ensures
        r == if i < s@.len() {
            Some(s@[i])
        } else {
            None
        },
{
    let rest = rest_at(s, raw, Ghost(i));
    let mut it = rest.chars();
    it.next()
}

/// Whether `c` is one of the runes of `set`.
fn contains_rune(set: &str, c: char) -> (r: bool)
    ensures
        r == set@.contains(c),
{
    let ghost s = set@;
    let bytes = set.as_bytes();
    proof {
        assert(vstd::slice::spec_slice_len(bytes) == bytes@.len());
        assert(s.take(0) =~= Seq::<char>::empty());
    }
    let mut raw: usize = 0;
    let ghost mut i: int = 0;
    loop
        invariant
            s == set@,
            0 <= i <= s.len(),
            raw == byte_offset(s, i),
            set.spec_bytes().len() <= usize::MAX,
            forall|k: int| 0 <= k < i ==> s[k] != c,
        decreases s.len() - i,
    {
        match rune_at(set, raw, Ghost(i)) {
            None => {
                return false;
            },
            Some(x) => {
                if x == c {
                    return true;
                }
                proof {
                    lemma_byte_offset_step(s, i);
                    lemma_encode_split(s, i + 1);
                }
                raw = raw + utf8_width(x);
                proof {
                    i = i + 1;
                }
            },
        }
    }
}

/// A scanning state of the caller's grammar. `step` scans from the cursor of
/// `l`, emits items, and returns the state to run next, or `None` when the
/// scan is done.
///
/// `stepped` says what a state does: that running it on `before` may leave
/// `after` and return `r`. A grammar whose states are verified states it
/// exactly; by default it says only what every state keeps. A lexer changes only through its own methods, and
/// each of them keeps the text and the items already emitted; so does every
/// `step`.
pub trait ScanState<T: PartialEq>: Sized {
    open spec fn stepped<'a>(&self, before: Lexer<'a, T>, after: Lexer<'a, T>, r: Option<StateFn<Self>>) -> bool {
        before.extends(&after)
    }

    fn step<'a>(&self, l: &mut Lexer<'a, T>) -> (r: Option<StateFn<Self>>)
        requires
            old(l).valid(),
        ensures
            self.stepped(*old(l), *final(l), r),
            old(l).extends(&*final(l)),
    ;
}

/// The states `ss` ran one after another: `ls[i]` and `ls[i + 1]` are the
/// lexer before and after `ss[i]` ran, and `rs[i]` what it returned. Each
/// state but the last handed over to the next one; the last returned `None`,
/// or was the `MAX_STEPS`th to run.
pub open spec fn ran<'a, T: PartialEq, S: ScanState<T>>(
    ls: Seq<Lexer<'a, T>>,
    ss: Seq<S>,
    rs: Seq<Option<StateFn<S>>>,
) -> bool {
    &&& 1 <= ss.len() <= MAX_STEPS
    &&& ls.len() == ss.len() + 1
    &&& rs.len() == ss.len()
    &&& forall|i: int| 0 <= i < ss.len() ==> (#[trigger] ss[i]).stepped(ls[i], ls[i + 1], rs[i])
    &&& forall|i: int| 0 <= i < ss.len() ==> (#[trigger] ls[i]).extends(&ls[i + 1])
    &&& forall|i: int| 0 <= i < ss.len() - 1 ==> #[trigger] rs[i] == Some(StateFn(ss[i + 1]))
    &&& rs.last() is None || ss.len() == MAX_STEPS
}

/// A typed piece of the input: its text, and the 1-based column and line of
/// its first rune.
#[derive(Debug, PartialEq)]
pub struct Item<'a, T> {
    pub typ: T,
    pub val: &'a str,
    pub col: usize,
    pub lineno: usize,
}

/// A place in the input: byte offset, 1-based column and line, and the index
/// of the rune that starts there.
#[derive(Clone, Copy)]
pub struct LexerPosition {
    raw: usize,
    col: usize,
    lineno: usize,
    idx: Ghost<int>,
}

impl LexerPosition {
    /// The position of the first rune of a text.
    pub closed spec fn is_start(self) -> bool {
        &&& self.raw == 0
        &&& self.col == 1
        &&& self.lineno == 1
        &&& self.idx@ == 0
    }

    /// The position is the one of rune index `idx` in `s`.
    spec fn at(self, s: Seq<char>) -> bool {
        &&& 0 <= self.idx@ <= s.len()
        &&& self.raw == byte_offset(s, self.idx@)
        &&& self.lineno == line_at(s, self.idx@)
        &&& self.col == col_at(s, self.idx@)
    }
}

impl Default for LexerPosition {
    /// The start of a text.
    fn default() -> (r: LexerPosition)
        ensures
            r.is_start(),
    {
        LexerPosition { raw: 0, col: 1, lineno: 1, idx: Ghost(0) }
    }
}

/// The state to run next: `Some(StateFn(s))` from a state continues the scan
/// with `s`.
pub struct StateFn<S>(pub S);

/// Most state transitions that one scan makes. The driver stops there, so
/// that every scan ends even when the states keep handing over to each other
/// without moving the cursor.
pub const MAX_STEPS: usize = usize::MAX;

/// The items emitted so far, with the rune range each was cut from.
struct Emitted<'a, T> {
    items: Vec<Item<'a, T>>,
    spans: Ghost<Seq<(int, int)>>,
}

/// The scanner: a cursor over `input` with one step of undo, the mark where
/// the pending item starts, and the items emitted so far.
pub struct Lexer<'a, T: PartialEq> {
    input: &'a str,
    pos: LexerPosition,
    prev_pos: LexerPosition,
    start_pos: LexerPosition,
    out: Emitted<'a, T>,
    undo: Ghost<bool>,
}

/// Item `it` holds the runes `lo..hi` of `s` and the line and column of `lo`.
pub open spec fn item_at<'a, T>(it: Item<'a, T>, s: Seq<char>, lo: int, hi: int) -> bool {
    &&& it.val@ == s.subrange(lo, hi)
    &&& it.lineno == line_at(s, lo)
    &&& it.col == col_at(s, lo)
}

/// `items` were cut from `s` at the rune ranges `spans`, in order, without
/// overlap, and all before rune index `bound`.
pub open spec fn items_placed<'a, T>(
    items: Seq<Item<'a, T>>,
    spans: Seq<(int, int)>,
    s: Seq<char>,
    bound: int,
) -> bool {
    &&& items.len() == spans.len()
    &&& bound <= s.len()
    &&& forall|i: int| 0 <= i < items.len() ==> item_at(#[trigger] items[i], s, spans[i].0, spans[i].1)
    &&& forall|i: int| 0 <= i < spans.len() ==> 0 <= (#[trigger] spans[i]).0 <= spans[i].1 <= bound
    &&& forall|i: int, j: int| 0 <= i < j < spans.len() ==> (#[trigger] spans[i]).1 <= (#[trigger] spans[j]).0
}

impl<'a, T: PartialEq> Lexer<'a, T> {
    #[verifier::type_invariant]
    spec fn inv(&self) -> bool {
        let s = self.input@;
        &&& self.input.spec_bytes().len() <= usize::MAX
        &&& s.len() < usize::MAX
        &&& self.pos.at(s)
        &&& self.prev_pos.at(s)
        &&& self.start_pos.at(s)
        &&& self.start_pos.idx@ <= self.pos.idx@
        &&& items_placed(self.out.items@, self.out.spans@, s, self.start_pos.idx@)
    }

    /// The runes of the input.
    pub closed spec fn text(&self) -> Seq<char> {
        self.input@
    }

    /// Rune index of the cursor.
    pub closed spec fn cursor(&self) -> int {
        self.pos.idx@
    }

    /// Rune index of the cursor before the last advance.
    pub closed spec fn prev_cursor(&self) -> int {
        self.prev_pos.idx@
    }

    /// Rune index where the pending item starts.
    pub closed spec fn mark(&self) -> int {
        self.start_pos.idx@
    }

    /// The items emitted so far.
    pub closed spec fn items(&self) -> Seq<Item<'a, T>> {
        self.out.items@
    }

    /// The rune ranges of the emitted items.
    pub closed spec fn spans(&self) -> Seq<(int, int)> {
        self.out.spans@
    }

    /// A `backup` may follow: the last cursor move was an advance.
    pub closed spec fn can_backup(&self) -> bool {
        self.undo@
    }

    /// Byte offset of the cursor.
    pub open spec fn offset(&self) -> nat {
        byte_offset(self.text(), self.cursor())
    }

    /// 1-based line of the cursor.
    pub open spec fn line(&self) -> nat {
        line_at(self.text(), self.cursor())
    }

    /// 1-based column of the cursor.
    pub open spec fn column(&self) -> nat {
        col_at(self.text(), self.cursor())
    }

    /// What holds of every lexer: the mark is not after the cursor, both are
    /// in the text, and the items are placed in order before the mark.
    pub open spec fn valid(&self) -> bool {
        &&& 0 <= self.mark() <= self.cursor() <= self.text().len()
        &&& 0 <= self.prev_cursor() <= self.text().len()
        &&& items_placed(self.items(), self.spans(), self.text(), self.mark())
    }

    /// The text, the items and the mark are the same in `self` and `other`.
    pub open spec fn same_but_cursor(&self, other: &Self) -> bool {
        &&& other.text() == self.text()
        &&& other.items() == self.items()
        &&& other.spans() == self.spans()
        &&& other.mark() == self.mark()
    }

    /// `next` on `self` returned `r` and left `after`.
    pub open spec fn next_step(&self, after: &Self, r: Option<char>) -> bool {
        &&& after.valid()
        &&& self.same_but_cursor(after)
        &&& after.prev_cursor() == self.cursor()
        &&& after.can_backup()
        &&& if self.cursor() < self.text().len() {
            &&& r == Some(self.text()[self.cursor()])
            &&& after.cursor() == self.cursor() + 1
        } else {
            &&& r is None
            &&& after.cursor() == self.cursor()
        }
    }

    /// `after` has the text of `self`, and the items of `self` followed by
    /// any number of new ones.
    pub open spec fn extends(&self, after: &Self) -> bool {
        &&& after.valid()
        &&& after.text() == self.text()
        &&& self.items().len() <= after.items().len()
        &&& self.spans().len() <= after.spans().len()
        &&& forall|i: int|
            0 <= i < self.items().len() ==> #[trigger] after.items()[i] == self.items()[i]
        &&& forall|i: int|
            0 <= i < self.spans().len() ==> #[trigger] after.spans()[i] == self.spans()[i]
    }

    /// `backup` on `self` left `after`.
    pub open spec fn backup_step(&self, after: &Self) -> bool {
        &&& after.valid()
        &&& self.same_but_cursor(after)
        &&& after.cursor() == self.prev_cursor()
        &&& after.prev_cursor() == self.prev_cursor()
        &&& !after.can_backup()
    }

    /// `peek` on `self` returned `r` and left `after`.
    pub open spec fn peek_step(&self, after: &Self, r: Option<char>) -> bool {
        &&& after.valid()
        &&& self.same_but_cursor(after)
        &&& after.cursor() == self.cursor()
        &&& after.prev_cursor() == self.cursor()
        &&& !after.can_backup()
        &&& r == if self.cursor() < self.text().len() {
            Some(self.text()[self.cursor()])
        } else {
            None
        }
    }

    /// `emit(typ)` on `self` left `after`.
    pub open spec fn emit_step(&self, after: &Self, typ: T) -> bool {
        &&& after.valid()
        &&& after.text() == self.text()
        &&& after.cursor() == self.cursor()
        &&& after.prev_cursor() == self.prev_cursor()
        &&& after.can_backup() == self.can_backup()
        &&& after.mark() == self.cursor()
        &&& after.items().len() == self.items().len() + 1
        &&& after.items().take(self.items().len() as int) == self.items()
        &&& after.spans() == self.spans().push((self.mark(), self.cursor()))
        &&& after.items().last().typ == typ
        &&& item_at(after.items().last(), self.text(), self.mark(), self.cursor())
    }

    /// `ignore` on `self` left `after`.
    pub open spec fn ignore_step(&self, after: &Self) -> bool {
        &&& after.valid()
        &&& after.text() == self.text()
        &&& after.items() == self.items()
        &&& after.spans() == self.spans()
        &&& after.cursor() == self.cursor()
        &&& after.prev_cursor() == self.prev_cursor()
        &&& after.can_backup() == self.can_backup()
        &&& after.mark() == self.cursor()
    }

    /// `accept` with the runes `set` on `self` returned `r` and left `after`.
    pub open spec fn accept_step(&self, after: &Self, set: Seq<char>, r: bool) -> bool {
        &&& after.valid()
        &&& self.same_but_cursor(after)
        &&& r == (self.cursor() < self.text().len() && set.contains(self.text()[self.cursor()]))
        &&& after.cursor() == if r {
            self.cursor() + 1
        } else {
            self.cursor()
        }
        &&& after.prev_cursor() == self.cursor()
        &&& after.can_backup() == r
    }

    /// `accept_run` with the runes `set` on `self` returned `r` and left
    /// `after`.
    pub open spec fn accept_run_step(&self, after: &Self, set: Seq<char>, r: bool) -> bool {
        let n = run_len(self.text(), self.cursor(), set);
        &&& after.valid()
        &&& self.same_but_cursor(after)
        &&& after.cursor() == self.cursor() + n
        &&& after.prev_cursor() == after.cursor()
        &&& !after.can_backup()
        &&& r == (n > 0)
    }

    /// A lexer at the start of `s`, with no items and nothing to undo.
    pub open spec fn fresh(&self, s: Seq<char>) -> bool {
        &&& self.valid()
        &&& self.text() == s
        &&& self.cursor() == 0
        &&& self.prev_cursor() == 0
        &&& self.mark() == 0
        &&& self.items().len() == 0
        &&& self.spans().len() == 0
        &&& !self.can_backup()
    }

    /// A lexer at the start of `input`, with no items.
    fn new(input: &'a str) -> (r: Lexer<'a, T>)
        requires
            input@.len() < usize::MAX,
        ensures
            r.fresh(input@),
    {
        let bytes = input.as_bytes();
        proof {
            assert(vstd::slice::spec_slice_len(bytes) == bytes@.len());
        }
        let origin = LexerPosition::default();
        proof {
            assert(input@.take(0) =~= Seq::<char>::empty());
            lemma_encode_len(input@);
        }
        Lexer {
            input: input,
            pos: origin,
            prev_pos: origin,
            start_pos: origin,
            out: Emitted { items: Vec::new(), spans: Ghost(Seq::empty()) },
            undo: Ghost(false),
        }
    }

    /// Advances over the next rune and returns it, or returns `None` at the
    /// end of the input. Either way the position before the call is kept for
    /// one `backup`.
    pub fn next(&mut self) -> (r: Option<char>)
        ensures
            old(self).valid(),
            old(self).next_step(&*final(self), r),
            r matches Some(c) ==> final(self).offset() == old(self).offset() + rune_width(c),
            r is None ==> final(self).offset() == old(self).offset(),
    {
        proof {
            use_type_invariant(&*self);
        }
        let ghost s = self.input@;
        let ghost i = self.pos.idx@;
        match rune_at(self.input, self.pos.raw, Ghost(i)) {
            Some(ch) => {
                proof {
                    lemma_byte_offset_step(s, i);
                    lemma_encode_split(s, i + 1);
                    lemma_encode_len(s);
                    lemma_line_col_bound(s, i + 1);
                }
                let w = utf8_width(ch);
                let cur = self.pos;
                let p = if ch == '\n' {
                    LexerPosition { raw: cur.raw + w, col: 1, lineno: cur.lineno + 1, idx: Ghost(i + 1) }
                } else {
                    LexerPosition { raw: cur.raw + w, col: cur.col + 1, lineno: cur.lineno, idx: Ghost(i + 1) }
                };
                self.prev_pos = cur;
                self.pos = p;
                self.undo = Ghost(true);
                Some(ch)
            },
            None => {
                self.prev_pos = self.pos;
                self.undo = Ghost(true);
                None
            },
        }
    }
}

impl<'a, T: PartialEq> Lexer<'a, T> {
    /// Undoes the last advance: the cursor returns to where it stood before
    /// the last `next`. Only one step of undo is kept, so two calls in a row
    /// are refused, and so is moving back over text already emitted or
    /// ignored.
    pub fn backup(&mut self)
        requires
            old(self).can_backup(),
            old(self).mark() <= old(self).prev_cursor(),
        ensures
            old(self).backup_step(&*final(self)),
    {
        proof {
            use_type_invariant(&*self);
        }
        self.pos = self.prev_pos;
        self.undo = Ghost(false);
    }

    /// Emits the runes from the mark to the cursor as an item tagged `typ`,
    /// with the line and column of the mark, and moves the mark to the
    /// cursor. The item may be empty.
    pub fn emit(&mut self, typ: T)
        ensures
            old(self).emit_step(&*final(self), typ),
    {
        proof {
            use_type_invariant(&*self);
        }
        let start = self.start_pos;
        let end = self.pos;
        let val = self.current();
        let item = Item { typ: typ, val: val, col: start.col, lineno: start.lineno };
        let mut out = Emitted { items: Vec::new(), spans: Ghost(Seq::empty()) };
        std::mem::swap(&mut self.out, &mut out);
        out.items.push(item);
        out.spans = Ghost(out.spans@.push((start.idx@, end.idx@)));
        self.start_pos = end;
        std::mem::swap(&mut self.out, &mut out);
        proof {
            assert(self.out.items@.take(old(self).out.items@.len() as int) =~= old(self).out.items@);
            use_type_invariant(&*self);
        }
    }

    /// Moves the mark to the cursor: the pending runes are skipped and will
    /// be in no item.
    pub fn ignore(&mut self)
        ensures
            old(self).ignore_step(&*final(self)),
    {
        proof {
            use_type_invariant(&*self);
        }
        self.start_pos = self.pos;
        proof {
            use_type_invariant(&*self);
        }
    }

    /// The rune that `next` would return, without moving the cursor.
    pub fn peek(&mut self) -> (r: Option<char>)
        ensures
            old(self).peek_step(&*final(self), r),
    {
        proof {
            use_type_invariant(&*self);
        }
        let ch = self.next();
        self.backup();
        ch
    }

    /// Advances over the next rune if it is one of `valid`; otherwise leaves
    /// the cursor where it was. Returns whether it advanced.
    pub fn accept(&mut self, valid: &str) -> (r: bool)
        ensures
            old(self).accept_step(&*final(self), valid@, r),
    {
        proof {
            use_type_invariant(&*self);
        }
        match self.next() {
            Some(ch) => {
                if contains_rune(valid, ch) {
                    true
                } else {
                    self.backup();
                    false
                }
            },
            None => {
                self.backup();
                false
            },
        }
    }

    /// Advances over the longest run of runes of `valid` at the cursor.
    /// Returns whether the run is not empty.
    pub fn accept_run(&mut self, valid: &str) -> (r: bool)
        ensures
            old(self).accept_run_step(&*final(self), valid@, r),
    {
        proof {
            use_type_invariant(&*self);
        }
        let ghost s = self.text();
        let ghost c0 = self.cursor();
        let ghost set = valid@;
        let mut found = false;
        loop
            invariant_except_break
                run_len(s, c0, set) == (self.cursor() - c0) + run_len(s, self.cursor(), set),
                found == (self.cursor() > c0),
            invariant
                old(self).same_but_cursor(&*self),
                self.valid(),
                s == self.text(),
                set == valid@,
                c0 == old(self).cursor(),
                c0 <= self.cursor() <= s.len(),
                self.mark() <= c0,
            ensures
                old(self).same_but_cursor(&*self),
                self.can_backup(),
                c0 <= self.prev_cursor(),
                self.prev_cursor() == c0 + run_len(s, c0, set),
                found == (self.prev_cursor() > c0),
            decreases s.len() - self.cursor(),
        {
            match self.next() {
                Some(ch) => {
                    if !contains_rune(valid, ch) {
                        break;
                    }
                    found = true;
                },
                None => {
                    break;
                },
            }
        }
        self.backup();
        found
    }

    /// Like `emit`, but emits nothing when the pending text is empty.
    pub fn emit_nonempty(&mut self, typ: T)
        ensures
            old(self).cursor() > old(self).mark() ==> old(self).emit_step(&*final(self), typ),
            old(self).cursor() == old(self).mark() ==> *final(self) == *old(self),
    {
        proof {
            use_type_invariant(&*self);
            lemma_byte_offset_grows(self.input@, self.start_pos.idx@, self.pos.idx@);
        }
        if self.pos.raw > self.start_pos.raw {
            self.emit(typ);
        }
    }

    /// The runes from the cursor to the end of the input.
    pub fn remaining_input(&self) -> (r: &'a str)
        ensures
            r@ == self.text().skip(self.cursor()),
    {
        proof {
            use_type_invariant(self);
        }
        rest_at(self.input, self.pos.raw, Ghost(self.pos.idx@))
    }

    /// The runes from the mark to the cursor: the text of the pending item.
    pub fn current(&self) -> (r: &'a str)
        ensures
            r@ == self.text().subrange(self.mark(), self.cursor()),
    {
        proof {
            use_type_invariant(self);
        }
        let ghost s = self.input@;
        let ghost i = self.start_pos.idx@;
        let ghost j = self.pos.idx@;
        proof {
            lemma_boundary(s, j);
            lemma_encode_split(s, j);
            lemma_boundary(s.take(j), i);
            lemma_encode_split(s.take(j), i);
            assert(s.take(j).take(i) =~= s.take(i));
            encode_utf8_decode_utf8(s.subrange(i, j));
            assert(s.take(j).skip(i) =~= s.subrange(i, j));
        }
        let (head, _) = self.input.split_at(self.pos.raw);
        proof {
            encode_utf8_decode_utf8(head@);
            encode_utf8_decode_utf8(s.take(j));
            assert(head@ == s.take(j));
        }
        let (_, val) = head.split_at(self.start_pos.raw);
        proof {
            encode_utf8_decode_utf8(val@);
        }
        val
    }
}

impl<'a, T: PartialEq> Lexer<'a, T> {
    /// Runs `start_state`, then each state that the last one handed over,
    /// until one returns `None` (or `MAX_STEPS` states have run).
    fn run<S: ScanState<T>>(&mut self, start_state: S)
        ensures
            old(self).extends(&*final(self)),
            exists|ls: Seq<Lexer<'a, T>>, ss: Seq<S>, rs: Seq<Option<StateFn<S>>>|
                {
                    &&& ran(ls, ss, rs)
                    &&& ss[0] == start_state
                    &&& ls[0] == *old(self)
                    &&& ls.last() == *final(self)
                },
    {
        proof {
            use_type_invariant(&*self);
        }
        let ghost mut ls: Seq<Lexer<'a, T>> = seq![*self];
        let ghost mut ss: Seq<S> = Seq::empty();
        let ghost mut rs: Seq<Option<StateFn<S>>> = Seq::empty();
        let mut state = start_state;
        let mut budget: usize = MAX_STEPS;
        loop
            invariant_except_break
                budget > 0,
                ss.len() > 0 ==> rs.last() == Some(StateFn(state)),
            invariant
                old(self).extends(&*self),
                ls.len() == ss.len() + 1,
                rs.len() == ss.len(),
                budget + ss.len() == MAX_STEPS,
                ls[0] == *old(self),
                ls.last() == *self,
                ss.len() == 0 ==> state == start_state,
                ss.len() > 0 ==> ss[0] == start_state,
                forall|i: int| 0 <= i < ss.len() ==> (#[trigger] ss[i]).stepped(ls[i], ls[i + 1], rs[i]),
                forall|i: int| 0 <= i < ss.len() ==> (#[trigger] ls[i]).extends(&ls[i + 1]),
                forall|i: int| 0 <= i < ss.len() - 1 ==> #[trigger] rs[i] == Some(StateFn(ss[i + 1])),
            ensures
                old(self).extends(&*self),
                ran(ls, ss, rs),
                ss[0] == start_state,
                ls[0] == *old(self),
                ls.last() == *self,
            decreases budget,
        {
            proof {
                use_type_invariant(&*self);
            }
            budget = budget - 1;
            let r = state.step(self);
            proof {
                ss = ss.push(state);
                ls = ls.push(*self);
                rs = rs.push(r);
            }
            match r {
                Some(StateFn(next)) => {
                    state = next;
                    if budget == 0 {
                        break;
                    }
                },
                None => {
                    break;
                },
            }
        }
    }
}

/// Scans `input` from `start_state` and returns the items that the states
/// emitted, in order. Each is a piece of the input, tagged with the line and
/// column of its first rune, and no two overlap. The input holds fewer than
/// `usize::MAX` runes, so that every line and column number fits a `usize`.
pub fn lex<'a, T: PartialEq, S: ScanState<T>>(input: &'a str, start_state: S) -> (r: Vec<Item<'a, T>>)
    requires
        input@.len() < usize::MAX,
    ensures
        exists|ls: Seq<Lexer<'a, T>>, ss: Seq<S>, rs: Seq<Option<StateFn<S>>>|
            {
                &&& ran(ls, ss, rs)
                &&& ss[0] == start_state
                &&& ls[0].fresh(input@)
                &&& r@ == ls.last().items()
            },
        exists|spans: Seq<(int, int)>| items_placed(r@, spans, input@, input@.len() as int),
{
    let mut l = Lexer::new(input);
    l.run(start_state);
    proof {
        use_type_invariant(&l);
        assert(items_placed(l.items(), l.spans(), input@, input@.len() as int));
    }
    l.out.items
}

} // verus!
