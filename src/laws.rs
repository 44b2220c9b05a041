//! Laws that relate several calls on one lexer.

use vstd::prelude::*;
use crate::lexer::Lexer;
use crate::text::{lemma_byte_offset_step, rune_width};

verus! {

/// Width in bytes of what `next` returned: the rune's width, or nothing at
/// the end of the input.
pub open spec fn advance_width(r: Option<char>) -> nat {
    match r {
        Some(c) => rune_width(c),
        None => 0,
    }
}

/// Over any run of `next` calls, each call moves the byte offset forward by
/// the UTF-8 width of the rune it returned (not at all at the end), so the
/// offsets never decrease.
pub proof fn lemma_next_offsets<'a, T: PartialEq>(ls: Seq<Lexer<'a, T>>, rs: Seq<Option<char>>)
    requires
        ls.len() == rs.len() + 1,
        ls[0].valid(),
        forall|i: int| 0 <= i < rs.len() ==> (#[trigger] ls[i]).next_step(&ls[i + 1], rs[i]),
    ensures
        forall|i: int|
            0 <= i < rs.len() ==> (#[trigger] ls[i + 1]).offset() == ls[i].offset()
                + advance_width(rs[i]),
        forall|i: int, j: int|
            0 <= i <= j < ls.len() ==> (#[trigger] ls[i]).offset() <= (#[trigger] ls[j]).offset(),
    decreases rs.len(),
{
    if rs.len() > 0 {
        let n = rs.len() - 1;
        let ls0 = ls.take(n + 1);
        let rs0 = rs.take(n);
        assert forall|i: int| 0 <= i < rs0.len() implies (#[trigger] ls0[i]).next_step(
            &ls0[i + 1],
            rs0[i],
        ) by {
            assert(ls0[i] == ls[i] && ls0[i + 1] == ls[i + 1] && rs0[i] == rs[i]);
        }
        lemma_next_offsets(ls0, rs0);
        let a = ls[n];
        let b = ls[n + 1];
        assert(a == ls0[n]);
        assert(a.valid()) by {
            if n > 0 {
                assert(ls[n - 1].next_step(&ls[n], rs[n - 1]));
            }
        }
        if a.cursor() < a.text().len() {
            lemma_byte_offset_step(a.text(), a.cursor());
        }
        assert(b.offset() == a.offset() + advance_width(rs[n]));
        assert forall|i: int| 0 <= i < rs.len() implies (#[trigger] ls[i + 1]).offset()
            == ls[i].offset() + advance_width(rs[i]) by {
            if i < n {
                assert(ls0[i + 1] == ls[i + 1] && ls0[i] == ls[i] && rs0[i] == rs[i]);
            }
        }
        assert forall|i: int, j: int| 0 <= i <= j < ls.len() implies (#[trigger] ls[i]).offset()
            <= (#[trigger] ls[j]).offset() by {
            if j <= n {
                assert(ls0[i] == ls[i] && ls0[j] == ls[j]);
            } else if i <= n {
                assert(ls0[i] == ls[i] && ls0[n] == ls[n]);
                assert(ls[i].offset() <= ls[n].offset());
            }
        }
    }
}

/// Peeking any number of times in a row returns the same rune each time and
/// leaves the cursor, and so its byte offset, line and column, where it was.
pub proof fn lemma_peek_idempotent<'a, T: PartialEq>(
    ls: Seq<Lexer<'a, T>>,
    rs: Seq<Option<char>>,
)
    requires
        ls.len() == rs.len() + 1,
        forall|i: int| 0 <= i < rs.len() ==> (#[trigger] ls[i]).peek_step(&ls[i + 1], rs[i]),
    ensures
        forall|i: int| 0 <= i < rs.len() ==> #[trigger] rs[i] == rs[0],
        forall|i: int|
            0 <= i < ls.len() ==> (#[trigger] ls[i]).cursor() == ls[0].cursor() && ls[i].text()
                == ls[0].text(),
        forall|i: int|
            0 <= i < ls.len() ==> (#[trigger] ls[i]).offset() == ls[0].offset() && ls[i].line()
                == ls[0].line() && ls[i].column() == ls[0].column(),
    decreases rs.len(),
{
    if rs.len() > 0 {
        let n = rs.len() - 1;
        lemma_peek_idempotent(ls.take(n + 1), rs.take(n));
        assert(ls.take(n + 1)[n] == ls[n]);
        assert forall|i: int| 0 <= i < rs.len() implies #[trigger] rs[i] == rs[0] by {
            if i < n {
                assert(rs.take(n)[i] == rs[i]);
                assert(rs.take(n)[0] == rs[0]);
            }
        }
        assert forall|i: int| 0 <= i < ls.len() implies (#[trigger] ls[i]).cursor() == ls[0].cursor()
            && ls[i].text() == ls[0].text() by {
            if i <= n {
                assert(ls.take(n + 1)[i] == ls[i]);
            }
        }
    }
}

/// Backing up right after an advance over rune `c` puts the cursor back
/// where it was (same rune index, byte offset, line and column), and the next
/// advance returns `c` again.
pub proof fn lemma_backup_undoes_next<'a, T: PartialEq>(
    a: Lexer<'a, T>,
    b: Lexer<'a, T>,
    c: Lexer<'a, T>,
    d: Lexer<'a, T>,
    ch: char,
    r: Option<char>,
)
    requires
        a.next_step(&b, Some(ch)),
        b.backup_step(&c),
        c.next_step(&d, r),
    ensures
        c.cursor() == a.cursor(),
        c.offset() == a.offset(),
        c.line() == a.line(),
        c.column() == a.column(),
        c.items() == a.items(),
        c.mark() == a.mark(),
        r == Some(ch),
        d.cursor() == b.cursor(),
{
}

} // verus!
