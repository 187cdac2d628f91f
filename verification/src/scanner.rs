//! The whitespace-collapsing scanner.
//!
//! A single left-to-right pass over a byte buffer collapses every run of
//! two or more consecutive space bytes into a single space, but only while
//! the nesting level of markup tags is zero.  While the level is positive,
//! `</` at the cursor starts a closing-tag scan that lowers the level when
//! its `>` is found on the same line.  Otherwise a `<` at the cursor
//! (unless followed by one of the exception sigils `!`, `=`, `<`, `>`)
//! starts an opening-tag scan for the `>` on the same line: a tag ending
//! in `/>` is self-closing and leaves the level unchanged, any other `>`
//! raises it.  In either scan, a newline before the `>` means the tag is
//! unterminated: its bytes are kept as plain text and the pass resumes
//! just after the `<`.

use vstd::prelude::*;

verus! {

/// The one byte that is subject to collapsing.
pub const SPACE: u8 = 32;
/// Aborts an unfinished tag scan: the tag's `>` must sit on the same line.
pub const NEWLINE: u8 = 10;
/// Starts a tag scan when it appears at the cursor.
pub const OPEN_ANGLE: u8 = 60;
/// Terminates a tag scan.
pub const CLOSE_ANGLE: u8 = 62;
/// Marks a closing tag after `<`, and a self-closing tag before `>`.
pub const SLASH: u8 = 47;
/// Exception sigil: `<!` opens a comment, not a tag.
pub const BANG: u8 = 33;
/// Exception sigil: `<=` is a comparison, not a tag.
pub const EQUALS_SIGN: u8 = 61;

/// A byte that, directly after `<`, keeps that `<` from opening a tag.
pub open spec fn evil_sigil(c: u8) -> bool {
    c == BANG || c == EQUALS_SIGN || c == OPEN_ANGLE || c == CLOSE_ANGLE
}

/// A byte that ends a tag scan: the terminating `>`, or the newline that
/// shows the tag is unterminated.
pub open spec fn is_stop(c: u8) -> bool {
    c == NEWLINE || c == CLOSE_ANGLE
}

/// The position of the first tag-scan stop byte at or after `j`, if any.
pub open spec fn first_stop(s: Seq<u8>, j: int) -> Option<int>
    decreases s.len() - j,
{
    if j < 0 || j >= s.len() {
        Option::None
    } else if is_stop(s[j]) {
        Option::Some(j)
    } else {
        first_stop(s, j + 1)
    }
}

/// The position of the first byte at or after `j` that is not a space
/// (or the end of the buffer): the exclusive end of a space run.
pub open spec fn run_end(s: Seq<u8>, j: int) -> int
    decreases s.len() - j,
{
    if 0 <= j && j < s.len() && s[j] == SPACE {
        run_end(s, j + 1)
    } else {
        j
    }
}

/// What one scanner pass leaves of the window `w`, the suffix of the
/// buffer whose first byte `w[0]` is the cursor.  `level` counts the
/// markup tags opened but not yet closed.
///
/// Each arm mirrors one step of the pass:
/// - while the level is positive, `</` at the cursor starts a closing
///   scan from two bytes on: its `>` lowers the level and the pass
///   resumes after it;
/// - a `<` at the cursor followed by an exception sigil is plain text,
///   and the sigil byte is the next cursor position;
/// - any other `<` at the cursor starts an opening scan from two bytes
///   on: its `>` raises the level, unless the byte before the `>` is `/`
///   (a self-closing tag, level unchanged);
/// - in either scan, a newline before the `>` means the tag is
///   unterminated: the bytes are kept as plain text and the pass resumes
///   just after the `<`, level unchanged;
/// - a tag scan that runs off the end of the buffer, like a `<` as the
///   very last byte, ends the whole pass with the rest untouched;
/// - two spaces at the cursor at level zero start a run: the whole run
///   becomes one space and the pass continues after it;
/// - any other byte is passed through unchanged.
pub open spec fn scan_tail(w: Seq<u8>, level: nat) -> Seq<u8>
    decreases w.len(),
    via scan_tail_dec
{
    if w.len() == 0 {
        w
    } else if w[0] == OPEN_ANGLE {
        if w.len() < 2 {
            w
        } else if level > 0 && w[1] == SLASH {
            match first_stop(w, 2) {
                Option::None => w,
                Option::Some(k) => {
                    if w[k] == NEWLINE {
                        w.take(1) + scan_tail(w.skip(1), level)
                    } else {
                        w.take(k + 1) + scan_tail(w.skip(k + 1), (level - 1) as nat)
                    }
                }
            }
        } else if evil_sigil(w[1]) {
            w.take(1) + scan_tail(w.skip(1), level)
        } else {
            match first_stop(w, 2) {
                Option::None => w,
                Option::Some(k) => {
                    if w[k] == NEWLINE {
                        w.take(1) + scan_tail(w.skip(1), level)
                    } else if w[k - 1] == SLASH {
                        w.take(k + 1) + scan_tail(w.skip(k + 1), level)
                    } else {
                        w.take(k + 1) + scan_tail(w.skip(k + 1), (level + 1) as nat)
                    }
                }
            }
        }
    } else if level == 0 && w.len() >= 2 && w[0] == SPACE && w[1] == SPACE {
        seq![SPACE] + scan_tail(w.skip(run_end(w, 2)), 0)
    } else {
        w.take(1) + scan_tail(w.skip(1), level)
    }
}

#[via_fn]
proof fn scan_tail_dec(w: Seq<u8>, level: nat) {
    lemma_first_stop_spec(w, 2);
    if 2 <= w.len() {
        lemma_run_end_spec(w, 2);
    }
}

/// What `first_stop` returns: the first stop byte at or after `j`, and
/// nothing but non-stop bytes before it.
pub proof fn lemma_first_stop_spec(s: Seq<u8>, j: int)
    requires
        0 <= j,
    ensures
        match first_stop(s, j) {
            Option::Some(k) => j <= k < s.len() && is_stop(s[k])
                && (forall|m: int| j <= m < k ==> !is_stop(s[m])),
            Option::None => forall|m: int| j <= m < s.len() ==> !is_stop(s[m]),
        },
    decreases s.len() - j,
{
    if j < s.len() && !is_stop(s[j]) {
        lemma_first_stop_spec(s, j + 1);
    }
}

/// Converse direction: a stop byte with none before it is what
/// `first_stop` finds.
pub proof fn lemma_first_stop_found(s: Seq<u8>, j: int, k: int)
    requires
        0 <= j <= k < s.len(),
        is_stop(s[k]),
        forall|m: int| j <= m < k ==> !is_stop(s[m]),
    ensures
        first_stop(s, j) == Option::Some(k),
    decreases k - j,
{
    if j < k {
        lemma_first_stop_found(s, j + 1, k);
    }
}

/// What `run_end` returns: nothing but spaces from `j` up to it, and a
/// non-space byte (or the buffer's end) at it.
pub proof fn lemma_run_end_spec(s: Seq<u8>, j: int)
    requires
        0 <= j <= s.len(),
    ensures
        j <= run_end(s, j) <= s.len(),
        forall|m: int| j <= m < run_end(s, j) ==> s[m] == SPACE,
        run_end(s, j) < s.len() ==> s[run_end(s, j)] != SPACE,
    decreases s.len() - j,
{
    if j < s.len() && s[j] == SPACE {
        lemma_run_end_spec(s, j + 1);
    }
}

/// Converse direction: the end of a stretch of spaces is what `run_end`
/// finds.
pub proof fn lemma_run_end_found(s: Seq<u8>, j: int, e: int)
    requires
        0 <= j <= e <= s.len(),
        forall|m: int| j <= m < e ==> s[m] == SPACE,
        e < s.len() ==> s[e] != SPACE,
    ensures
        run_end(s, j) == e,
    decreases e - j,
{
    if j < e {
        lemma_run_end_found(s, j + 1, e);
    }
}

/// Searching a suffix window is searching the buffer, shifted.
pub proof fn lemma_first_stop_shift(s: Seq<u8>, a: int, j: int)
    requires
        0 <= a <= s.len(),
        0 <= j,
    ensures
        ({
            let shifted = first_stop(s.skip(a), j);
            match first_stop(s, a + j) {
                Option::Some(k) => shifted == Option::Some(k - a),
                Option::None => shifted == Option::<int>::None,
            }
        }),
    decreases s.len() - (a + j),
{
    if a + j < s.len() {
        assert(s.skip(a)[j] == s[a + j]);
        if !is_stop(s[a + j]) {
            lemma_first_stop_shift(s, a, j + 1);
        }
    }
}

/// Measuring a space run in a suffix window is measuring it in the
/// buffer, shifted.
pub proof fn lemma_run_end_shift(s: Seq<u8>, a: int, j: int)
    requires
        0 <= a <= s.len(),
        0 <= j,
    ensures
        run_end(s.skip(a), j) == run_end(s, a + j) - a,
    decreases s.len() - (a + j),
{
    if a + j < s.len() && s[a + j] == SPACE {
        assert(s.skip(a)[j] == s[a + j]);
        lemma_run_end_shift(s, a, j + 1);
    }
}

/// Emitting `d` more bytes of the window extends the settled prefix.
proof fn lemma_advance(s: Seq<u8>, a: int, d: int, t: Seq<u8>)
    requires
        0 <= a,
        1 <= d,
        a + d <= s.len(),
    ensures
        s.take(a) + (s.skip(a).take(d) + t) == s.take(a + d) + t,
        s.skip(a).skip(d) == s.skip(a + d),
{
    assert(s.take(a) + (s.skip(a).take(d) + t) =~= s.take(a + d) + t);
    assert(s.skip(a).skip(d) =~= s.skip(a + d));
}

fn is_evil_sigil(c: u8) -> (r: bool)
    ensures
        r == evil_sigil(c),
{
    c == BANG || c == EQUALS_SIGN || c == OPEN_ANGLE || c == CLOSE_ANGLE
}

/// Finds the first stop byte at or after `from`.
fn find_stop(text: &Vec<u8>, from: usize) -> (r: Option<usize>)
    requires
        from <= text@.len(),
    ensures
        match r {
            Option::Some(k) => first_stop(text@, from as int) == Option::Some(k as int)
                && from <= k < text@.len(),
            Option::None => first_stop(text@, from as int) == Option::<int>::None,
        },
{
    let mut j: usize = from;
    while j < text.len()
        invariant
            from <= j <= text@.len(),
            first_stop(text@, from as int) == first_stop(text@, j as int),
        decreases text@.len() - j,
    {
        let c = text[j];
        if c == NEWLINE || c == CLOSE_ANGLE {
            return Option::Some(j);
        }
        j = j + 1;
    }
    Option::None
}

/// Finds the exclusive end of the stretch of spaces starting at `from`.
fn find_run_end(text: &Vec<u8>, from: usize) -> (e: usize)
    requires
        from <= text@.len(),
    ensures
        run_end(text@, from as int) == e as int,
        from <= e <= text@.len(),
{
    let mut j: usize = from;
    while j < text.len()
        invariant
            from <= j <= text@.len(),
            run_end(text@, from as int) == run_end(text@, j as int),
        decreases text@.len() - j,
    {
        if text[j] != SPACE {
            return j;
        }
        j = j + 1;
    }
    j
}

/// Removes the bytes at positions `from..to` in place: one pass shifts
/// the tail down, then the buffer is shortened.
fn remove_range(text: &mut Vec<u8>, from: usize, to: usize)
    requires
        from <= to <= old(text)@.len(),
    ensures
        final(text)@ == old(text)@.take(from as int) + old(text)@.skip(to as int),
{
    let ghost orig = text@;
    let count: usize = to - from;
    let mut j: usize = to;
    while j < text.len()
        invariant
            count == to - from,
            from <= to <= j <= orig.len(),
            text@.len() == orig.len(),
            text@.subrange(0, from as int) == orig.subrange(0, from as int),
            text@.subrange(from as int, j - count) == orig.subrange(to as int, j as int),
            text@.subrange(j as int, orig.len() as int) == orig.subrange(j as int, orig.len() as int),
        decreases text@.len() - j,
    {
        let ghost before = text@;
        let b = text[j];
        proof {
            assert(before[j as int] == before.subrange(j as int, orig.len() as int)[0]);
            assert(b == orig[j as int]);
        }
        text[j - count] = b;
        proof {
            assert forall|m: int| j + 1 <= m < orig.len() implies #[trigger] text@[m] == orig[m] by {
                assert(text@[m] == before[m]);
                assert(before[m] == before.subrange(j as int, orig.len() as int)[m - j]);
            }
            assert(text@.subrange(0, from as int) =~= before.subrange(0, from as int));
            assert(text@.subrange(from as int, j + 1 - count) =~= orig.subrange(to as int, j + 1));
            assert(text@.subrange(j + 1, orig.len() as int) =~= orig.subrange(j + 1, orig.len() as int));
        }
        j = j + 1;
    }
    let ghost shifted = text@;
    let new_len = text.len() - count;
    text.truncate(new_len);
    proof {
        assert forall|m: int| 0 <= m < from implies #[trigger] shifted[m] == orig[m] by {
            assert(shifted[m] == shifted.subrange(0, from as int)[m]);
        }
        assert forall|m: int| from <= m < orig.len() - count implies #[trigger] shifted[m] == orig[m + count] by {
            assert(shifted[m] == shifted.subrange(from as int, j - count)[m - from]);
            assert(orig.subrange(to as int, j as int)[m - from] == orig[m + count]);
        }
        assert(text@ =~= orig.take(from as int) + orig.skip(to as int));
    }
}

/// Collapses every run of two or more consecutive spaces that the scan
/// meets at nesting level zero into a single space, in place.  Returns
/// `Some(())` when at least one run was collapsed, `None` when the buffer
/// is returned untouched.
#[verifier::rlimit(50)]
pub fn reduce_spaces(text: &mut Vec<u8>) -> (r: Option<()>)
    ensures
        final(text)@ == scan_tail(old(text)@, 0),
        r is Some <==> final(text)@ != old(text)@,
{
    let ghost orig: Seq<u8> = text@;
    let mut i: usize = 0;
    let mut level: usize = 0;
    let mut modified: bool = false;
    proof {
        assert(text@.skip(0) =~= text@);
        assert(text@.take(0) + scan_tail(text@, 0) =~= scan_tail(text@, 0));
    }
    while i < text.len()
        invariant
            i <= text@.len(),
            level <= i,
            scan_tail(orig, 0) == text@.take(i as int) + scan_tail(text@.skip(i as int), level as nat),
            modified ==> text@.len() < orig.len(),
            !modified ==> text@ == orig,
        decreases text@.len() - i,
    {
        let ghost s = text@;
        let ghost w = s.skip(i as int);
        let ghost lvl = level as nat;
        proof {
            assert(w.len() == s.len() - i);
            assert(w[0] == s[i as int]);
        }
        let c = text[i];
        if c == OPEN_ANGLE {
            if i + 1 >= text.len() {
                // The `<` is the last byte: the pass ends here.
                proof {
                    assert(w.len() == 1);
                    assert(scan_tail(w, lvl) == w);
                    assert(s.take(i as int) + w =~= s);
                    assert(s.take(s.len() as int) + scan_tail(s.skip(s.len() as int), lvl) =~= s);
                }
                i = text.len();
            } else if level > 0 && text[i + 1] == SLASH {
                // A closing tag: look for its `>` on the same line.
                proof {
                    assert(w[1] == s[i + 1]);
                    lemma_first_stop_shift(s, i as int, 2);
                }
                match find_stop(text, i + 2) {
                    Option::None => {
                        // Neither `>` nor newline until the end: the pass
                        // ends.
                        proof {
                            assert(scan_tail(w, lvl) == w);
                            assert(s.take(i as int) + w =~= s);
                            assert(s.take(s.len() as int) + scan_tail(s.skip(s.len() as int), lvl) =~= s);
                        }
                        i = text.len();
                    },
                    Option::Some(k) => {
                        if text[k] == NEWLINE {
                            // Unterminated closing tag: resume just after
                            // the `<`, as plain text.
                            proof {
                                assert(w[k - i] == s[k as int]);
                                assert(scan_tail(w, lvl) == w.take(1) + scan_tail(w.skip(1), lvl));
                                lemma_advance(s, i as int, 1, scan_tail(s.skip(i + 1), lvl));
                            }
                            i = i + 1;
                        } else {
                            proof {
                                assert(w[k - i] == s[k as int]);
                                assert(scan_tail(w, lvl) == w.take(k - i + 1) + scan_tail(w.skip(k - i + 1), (lvl - 1) as nat));
                                lemma_advance(s, i as int, k - i + 1, scan_tail(s.skip(k + 1), (lvl - 1) as nat));
                            }
                            level = level - 1;
                            i = k + 1;
                        }
                    },
                }
            } else if is_evil_sigil(text[i + 1]) {
                // An exception sigil follows the `<`: no tag starts here.
                proof {
                    assert(w[1] == s[i + 1]);
                    assert(scan_tail(w, lvl) == w.take(1) + scan_tail(w.skip(1), lvl));
                    lemma_advance(s, i as int, 1, scan_tail(s.skip(i + 1), lvl));
                }
                i = i + 1;
            } else {
                // An opening tag: look for its `>` on the same line.
                proof {
                    assert(w[1] == s[i + 1]);
                    lemma_first_stop_shift(s, i as int, 2);
                }
                match find_stop(text, i + 2) {
                    Option::None => {
                        proof {
                            assert(scan_tail(w, lvl) == w);
                            assert(s.take(i as int) + w =~= s);
                            assert(s.take(s.len() as int) + scan_tail(s.skip(s.len() as int), lvl) =~= s);
                        }
                        i = text.len();
                    },
                    Option::Some(k) => {
                        if text[k] == NEWLINE {
                            // Unterminated tag: resume just after the `<`,
                            // as plain text.
                            proof {
                                assert(w[k - i] == s[k as int]);
                                assert(scan_tail(w, lvl) == w.take(1) + scan_tail(w.skip(1), lvl));
                                lemma_advance(s, i as int, 1, scan_tail(s.skip(i + 1), lvl));
                            }
                            i = i + 1;
                        } else {
                            // A terminated tag: `/>` keeps the level, a bare
                            // `>` raises it.
                            let self_closing = text[k - 1] == SLASH;
                            proof {
                                assert(w[k - i] == s[k as int]);
                                assert(w[k - i - 1] == s[k - 1]);
                                if self_closing {
                                    assert(scan_tail(w, lvl) == w.take(k - i + 1) + scan_tail(w.skip(k - i + 1), lvl));
                                    lemma_advance(s, i as int, k - i + 1, scan_tail(s.skip(k + 1), lvl));
                                } else {
                                    assert(scan_tail(w, lvl) == w.take(k - i + 1) + scan_tail(w.skip(k - i + 1), (lvl + 1) as nat));
                                    lemma_advance(s, i as int, k - i + 1, scan_tail(s.skip(k + 1), (lvl + 1) as nat));
                                }
                            }
                            if !self_closing {
                                level = level + 1;
                            }
                            i = k + 1;
                        }
                    },
                }
            }
        } else if level == 0 && c == SPACE && i + 1 < text.len() && text[i + 1] == SPACE {
            // A run of at least two spaces at level zero: keep the space
            // at the cursor, drop the rest of the run, and continue after
            // the kept space.
            let e = find_run_end(text, i + 2);
            proof {
                assert(w[1] == s[i + 1]);
                lemma_run_end_shift(s, i as int, 2);
                assert(run_end(w, 2) == e - i);
                assert(scan_tail(w, 0) == seq![SPACE] + scan_tail(w.skip(e - i), 0));
                lemma_advance(s, i as int, e - i, scan_tail(s.skip(e as int), 0));
            }
            remove_range(text, i + 1, e);
            modified = true;
            proof {
                let t = text@;
                assert(t.take(i + 1) =~= s.take(i + 1));
                assert(t.skip(i + 1) =~= s.skip(e as int));
                assert(s.take(i as int) + (seq![SPACE] + scan_tail(s.skip(e as int), 0))
                    =~= t.take(i + 1) + scan_tail(t.skip(i + 1), 0));
            }
            i = i + 1;
        } else {
            // An ordinary byte: pass it through.
            proof {
                assert(scan_tail(w, lvl) == w.take(1) + scan_tail(w.skip(1), lvl));
                lemma_advance(s, i as int, 1, scan_tail(s.skip(i + 1), lvl));
            }
            i = i + 1;
        }
    }
    proof {
        assert(text@.skip(i as int).len() == 0);
        assert(scan_tail(text@.skip(i as int), level as nat) == text@.skip(i as int));
        assert(text@.take(i as int) + text@.skip(i as int) =~= text@);
    }
    if modified {
        Option::Some(())
    } else {
        Option::None
    }
}

} // verus!
