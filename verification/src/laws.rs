//! General laws of the scanner, proved over its specification.

use vstd::prelude::*;

use crate::scanner::evil_sigil;
use crate::scanner::first_stop;
use crate::scanner::is_stop;
use crate::scanner::lemma_first_stop_found;
use crate::scanner::lemma_first_stop_spec;
use crate::scanner::lemma_run_end_found;
use crate::scanner::lemma_run_end_spec;
use crate::scanner::run_end;
use crate::scanner::scan_tail;
use crate::scanner::CLOSE_ANGLE;
use crate::scanner::NEWLINE;
use crate::scanner::OPEN_ANGLE;
use crate::scanner::SLASH;
use crate::scanner::SPACE;

verus! {

/// A pass never loses the cursor byte: the output is non-empty and
/// starts with `w[0]`.
pub proof fn lemma_scan_keeps_first(w: Seq<u8>, level: nat)
    requires
        w.len() >= 1,
    ensures
        scan_tail(w, level).len() >= 1,
        scan_tail(w, level)[0] == w[0],
{
    if w[0] == OPEN_ANGLE {
        if w.len() >= 2 {
            lemma_first_stop_spec(w, 2);
        }
    } else if level == 0 && w.len() >= 2 && w[0] == SPACE && w[1] == SPACE {
        lemma_run_end_spec(w, 2);
    }
}

/// Unless the cursor stands on a run to be collapsed, the byte after it
/// survives a pass as well: the output keeps `w[0]` and `w[1]` in place.
pub proof fn lemma_scan_keeps_second(w: Seq<u8>, level: nat)
    requires
        w.len() >= 2,
        !(level == 0 && w[0] == SPACE && w[1] == SPACE),
    ensures
        scan_tail(w, level).len() >= 2,
        scan_tail(w, level)[0] == w[0],
        scan_tail(w, level)[1] == w[1],
{
    if w[0] == OPEN_ANGLE {
        lemma_first_stop_spec(w, 2);
        if level > 0 && w[1] == SLASH {
            match first_stop(w, 2) {
                Option::None => {},
                Option::Some(k) => {
                    if w[k] == NEWLINE {
                        lemma_scan_keeps_first(w.skip(1), level);
                        assert(w.skip(1)[0] == w[1]);
                    }
                },
            }
        } else if evil_sigil(w[1]) {
            lemma_scan_keeps_first(w.skip(1), level);
            assert(w.skip(1)[0] == w[1]);
        } else {
            match first_stop(w, 2) {
                Option::None => {},
                Option::Some(k) => {
                    if w[k] == NEWLINE {
                        lemma_scan_keeps_first(w.skip(1), level);
                        assert(w.skip(1)[0] == w[1]);
                    }
                },
            }
        }
    } else {
        lemma_scan_keeps_first(w.skip(1), level);
        assert(w.skip(1)[0] == w[1]);
    }
}

/// A window with no two adjacent spaces anywhere.
pub open spec fn space_run_free(s: Seq<u8>) -> bool {
    forall|m: int| 1 <= m < s.len() ==> !(s[m - 1] == SPACE && #[trigger] s[m] == SPACE)
}

proof fn lemma_run_free_skip(s: Seq<u8>, d: int)
    requires
        space_run_free(s),
        0 <= d <= s.len(),
    ensures
        space_run_free(s.skip(d)),
{
    assert forall|m: int|
        1 <= m < s.skip(d).len() implies !(s.skip(d)[m - 1] == SPACE && #[trigger] s.skip(d)[m]
        == SPACE) by {
        assert(s.skip(d)[m - 1] == s[d + m - 1]);
        assert(s.skip(d)[m] == s[d + m]);
    }
}

/// Without a run of two or more spaces, a pass is the identity: tags may
/// be scanned and even be malformed, but nothing is ever rewritten.
pub proof fn lemma_run_free_unchanged(w: Seq<u8>, level: nat)
    requires
        space_run_free(w),
    ensures
        scan_tail(w, level) == w,
    decreases w.len(),
{
    if w.len() == 0 {
    } else if w[0] == OPEN_ANGLE {
        if w.len() < 2 {
        } else {
            lemma_first_stop_spec(w, 2);
            if level > 0 && w[1] == SLASH {
                match first_stop(w, 2) {
                    Option::None => {},
                    Option::Some(k) => {
                        if w[k] == NEWLINE {
                            lemma_run_free_skip(w, 1);
                            lemma_run_free_unchanged(w.skip(1), level);
                            assert(w.take(1) + w.skip(1) =~= w);
                        } else {
                            lemma_run_free_skip(w, k + 1);
                            lemma_run_free_unchanged(w.skip(k + 1), (level - 1) as nat);
                            assert(w.take(k + 1) + w.skip(k + 1) =~= w);
                        }
                    },
                }
            } else if evil_sigil(w[1]) {
                lemma_run_free_skip(w, 1);
                lemma_run_free_unchanged(w.skip(1), level);
                assert(w.take(1) + w.skip(1) =~= w);
            } else {
                match first_stop(w, 2) {
                    Option::None => {},
                    Option::Some(k) => {
                        if w[k] == NEWLINE {
                            lemma_run_free_skip(w, 1);
                            lemma_run_free_unchanged(w.skip(1), level);
                            assert(w.take(1) + w.skip(1) =~= w);
                        } else if w[k - 1] == SLASH {
                            lemma_run_free_skip(w, k + 1);
                            lemma_run_free_unchanged(w.skip(k + 1), level);
                            assert(w.take(k + 1) + w.skip(k + 1) =~= w);
                        } else {
                            lemma_run_free_skip(w, k + 1);
                            lemma_run_free_unchanged(w.skip(k + 1), (level + 1) as nat);
                            assert(w.take(k + 1) + w.skip(k + 1) =~= w);
                        }
                    },
                }
            }
        }
    } else if level == 0 && w.len() >= 2 && w[0] == SPACE && w[1] == SPACE {
        assert(!(w[0] == SPACE && w[1] == SPACE));
    } else {
        lemma_run_free_skip(w, 1);
        lemma_run_free_unchanged(w.skip(1), level);
        assert(w.take(1) + w.skip(1) =~= w);
    }
}

/// While at least one tag stands open and no `>` lies ahead, the level
/// can never return to zero, so the whole tag body is preserved verbatim.
pub proof fn lemma_tag_body_preserved(w: Seq<u8>, level: nat)
    requires
        level >= 1,
        forall|m: int| 0 <= m < w.len() ==> w[m] != CLOSE_ANGLE,
    ensures
        scan_tail(w, level) == w,
    decreases w.len(),
{
    if w.len() == 0 {
    } else if w[0] == OPEN_ANGLE && w.len() < 2 {
    } else {
        let took_scan = w[0] == OPEN_ANGLE && !evil_sigil(w[1]);
        if w[0] == OPEN_ANGLE {
            lemma_first_stop_spec(w, 2);
            match first_stop(w, 2) {
                Option::None => {},
                Option::Some(k) => {
                    assert(w[k] == NEWLINE);
                },
            }
        }
        if w[0] == OPEN_ANGLE && took_scan && first_stop(w, 2) is None {
            // The tag scan runs off the end: the rest stays as it is.
        } else {
            assert forall|m: int|
                0 <= m < w.skip(1).len() implies #[trigger] w.skip(1)[m] != CLOSE_ANGLE by {
                assert(w.skip(1)[m] == w[1 + m]);
            }
            lemma_tag_body_preserved(w.skip(1), level);
            assert(w.take(1) + w.skip(1) =~= w);
        }
    }
}

/// A run of `k >= 2` spaces met by the cursor at level zero leaves
/// exactly one space: the pass continues right after the run, and the
/// output starts with a space that no second space follows.
pub proof fn lemma_run_collapses(w: Seq<u8>, k: int)
    requires
        2 <= k <= w.len(),
        forall|m: int| 0 <= m < k ==> w[m] == SPACE,
        k < w.len() ==> w[k] != SPACE,
    ensures
        scan_tail(w, 0) == seq![SPACE] + scan_tail(w.skip(k), 0),
        scan_tail(w, 0).len() >= 1,
        scan_tail(w, 0)[0] == SPACE,
        scan_tail(w, 0).len() >= 2 ==> scan_tail(w, 0)[1] != SPACE,
{
    assert(w[0] == SPACE);
    assert(w[1] == SPACE);
    lemma_run_end_found(w, 2, k);
    if k < w.len() {
        lemma_scan_keeps_first(w.skip(k), 0);
        assert(w.skip(k)[0] == w[k]);
    } else {
        assert(w.skip(k).len() == 0);
        assert(scan_tail(w.skip(k), 0).len() == 0);
    }
}

/// A lone space under the cursor — no second space after it — is never
/// altered: the pass keeps it and moves on.  (At level zero the scan can
/// only arrive here with no space before it either: a run would have
/// been collapsed one step earlier.)
pub proof fn lemma_lone_space_preserved(w: Seq<u8>, level: nat)
    requires
        w.len() >= 1,
        w[0] == SPACE,
        w.len() >= 2 ==> w[1] != SPACE,
    ensures
        scan_tail(w, level).len() >= 1,
        scan_tail(w, level)[0] == SPACE,
        scan_tail(w, level) == w.take(1) + scan_tail(w.skip(1), level),
{
    lemma_scan_keeps_first(w, level);
}

/// An exception sigil directly after `<` keeps that `<` from opening a
/// tag: the byte is passed through and the level is unchanged.
pub proof fn lemma_sigil_is_plain_text(w: Seq<u8>, level: nat)
    requires
        w.len() >= 2,
        w[0] == OPEN_ANGLE,
        evil_sigil(w[1]),
    ensures
        scan_tail(w, level) == w.take(1) + scan_tail(w.skip(1), level),
{
}

/// A tag terminated by `/>` is self-closing: the bytes up to its `>` are
/// kept verbatim and the pass continues at the very same nesting level.
pub proof fn lemma_self_closing_keeps_level(w: Seq<u8>, level: nat, k: int)
    requires
        w.len() >= 2,
        w[0] == OPEN_ANGLE,
        !evil_sigil(w[1]),
        !(level > 0 && w[1] == SLASH),
        first_stop(w, 2) == Option::Some(k),
        w[k] == CLOSE_ANGLE,
        w[k - 1] == SLASH,
    ensures
        scan_tail(w, level) == w.take(k + 1) + scan_tail(w.skip(k + 1), level),
{
}

/// A recognized closing tag lowers the nesting level by one: its bytes
/// are kept verbatim and the pass continues after its `>`.
pub proof fn lemma_closing_tag_lowers_level(w: Seq<u8>, level: nat, k: int)
    requires
        level >= 1,
        w.len() >= 2,
        w[0] == OPEN_ANGLE,
        w[1] == SLASH,
        first_stop(w, 2) == Option::Some(k),
        w[k] == CLOSE_ANGLE,
    ensures
        scan_tail(w, level) == w.take(k + 1) + scan_tail(w.skip(k + 1), (level - 1) as nat),
{
}

/// A newline before the `>` of a candidate tag — opening or closing —
/// abandons the tag scan: the bytes seen are kept as literal text, the
/// level is unchanged, and the pass, collapsing included, resumes just
/// after the `<`.
pub proof fn lemma_unterminated_tag_recovers(w: Seq<u8>, level: nat, k: int)
    requires
        w.len() >= 2,
        w[0] == OPEN_ANGLE,
        !evil_sigil(w[1]),
        first_stop(w, 2) == Option::Some(k),
        w[k] == NEWLINE,
    ensures
        scan_tail(w, level) == w.take(1) + scan_tail(w.skip(1), level),
{
}

/// After emitting a settled prefix, a surviving triple in the scanned
/// tail is a surviving triple in the whole output, shifted.
proof fn lemma_triple_through_prefix(pre: Seq<u8>, t: Seq<u8>, out: Seq<u8>, x: u8, y: u8, q0: int)
    requires
        out == pre + t,
        1 <= q0,
        q0 + 1 < t.len(),
        t[q0 - 1] == x,
        t[q0] == SPACE,
        t[q0 + 1] == y,
    ensures
        exists|q: int|
            1 <= q && q + 1 < out.len() && out[q - 1] == x && #[trigger] out[q] == SPACE
                && out[q + 1] == y,
{
    let q = q0 + pre.len();
    assert(out[q - 1] == t[q0 - 1]);
    assert(out[q] == t[q0]);
    assert(out[q + 1] == t[q0 + 1]);
    assert(1 <= q && q + 1 < out.len() && out[q - 1] == x && out[q] == SPACE && out[q + 1] == y);
}

/// One pass step that emits a single byte keeps a lone space right
/// after the cursor, together with the byte that follows it.
proof fn lemma_triple_at_step(w: Seq<u8>, level: nat)
    requires
        w.len() >= 3,
        scan_tail(w, level) == w.take(1) + scan_tail(w.skip(1), level),
        w[1] == SPACE,
        w[2] != SPACE,
    ensures
        scan_tail(w, level).len() >= 3,
        scan_tail(w, level)[0] == w[0],
        scan_tail(w, level)[1] == SPACE,
        scan_tail(w, level)[2] == w[2],
{
    let v = w.skip(1);
    lemma_scan_keeps_second(v, level);
    assert(v[0] == w[1]);
    assert(v[1] == w[2]);
}

/// The general form of single-space preservation: a lone space — one
/// with a non-space byte on either side — survives a pass together with
/// both neighbours, as the same contiguous three bytes of the output.
#[verifier::rlimit(80)]
pub proof fn lemma_lone_space_survives(w: Seq<u8>, level: nat, p: int)
    requires
        1 <= p,
        p + 1 < w.len(),
        w[p - 1] != SPACE,
        w[p] == SPACE,
        w[p + 1] != SPACE,
    ensures
        exists|q: int|
            1 <= q && q + 1 < scan_tail(w, level).len()
                && scan_tail(w, level)[q - 1] == w[p - 1]
                && #[trigger] scan_tail(w, level)[q] == SPACE
                && scan_tail(w, level)[q + 1] == w[p + 1],
    decreases w.len(),
{
    let out = scan_tail(w, level);
    if w[0] == OPEN_ANGLE {
        lemma_first_stop_spec(w, 2);
        let tag_scan = (level > 0 && w[1] == SLASH) || !evil_sigil(w[1]);
        if tag_scan && first_stop(w, 2) is None {
            // The pass ends mid-tag: the buffer, triple included, stays.
            assert(out == w);
            assert(1 <= p && p + 1 < out.len() && out[p - 1] == w[p - 1] && out[p] == SPACE
                && out[p + 1] == w[p + 1]);
        } else if tag_scan && (first_stop(w, 2) matches Option::Some(k) && w[k] != NEWLINE) {
            // A terminated tag: the bytes up to its `>` at `k` are kept
            // verbatim and the scan continues after it.
            let k = first_stop(w, 2)->Some_0;
            let lvl2: nat = if level > 0 && w[1] == SLASH {
                (level - 1) as nat
            } else if w[k - 1] == SLASH {
                level
            } else {
                (level + 1) as nat
            };
            let v = w.skip(k + 1);
            let t = scan_tail(v, lvl2);
            assert(out == w.take(k + 1) + t);
            assert(p != k);
            if p + 1 <= k {
                assert(out[p - 1] == w[p - 1]);
                assert(out[p] == w[p]);
                assert(out[p + 1] == w[p + 1]);
                assert(1 <= p && p + 1 < out.len() && out[p - 1] == w[p - 1] && out[p] == SPACE
                    && out[p + 1] == w[p + 1]);
            } else if p == k + 1 {
                lemma_scan_keeps_second(v, lvl2);
                assert(v[0] == w[p]);
                assert(v[1] == w[p + 1]);
                assert(out[p - 1] == w[p - 1]);
                assert(out[p] == t[0]);
                assert(out[p + 1] == t[1]);
                assert(1 <= p && p + 1 < out.len() && out[p - 1] == w[p - 1] && out[p] == SPACE
                    && out[p + 1] == w[p + 1]);
            } else {
                lemma_lone_space_survives(v, lvl2, p - (k + 1));
                let q0 = choose|q: int|
                    1 <= q && q + 1 < scan_tail(v, lvl2).len()
                        && scan_tail(v, lvl2)[q - 1] == v[p - (k + 1) - 1]
                        && #[trigger] scan_tail(v, lvl2)[q] == SPACE
                        && scan_tail(v, lvl2)[q + 1] == v[p - (k + 1) + 1];
                assert(v[p - (k + 1) - 1] == w[p - 1]);
                assert(v[p - (k + 1) + 1] == w[p + 1]);
                lemma_triple_through_prefix(w.take(k + 1), t, out, w[p - 1], w[p + 1], q0);
            }
        } else {
            // A sigil, or a tag scan aborted by a newline: one byte is
            // emitted and the scan continues after the `<`.
            assert(out == w.take(1) + scan_tail(w.skip(1), level));
            if p == 1 {
                lemma_triple_at_step(w, level);
                assert(1 <= 1 && 1 + 1 < out.len() && out[0] == w[0] && out[1] == SPACE
                    && out[2] == w[2]);
            } else {
                let v = w.skip(1);
                let t = scan_tail(v, level);
                lemma_lone_space_survives(v, level, p - 1);
                let q0 = choose|q: int|
                    1 <= q && q + 1 < scan_tail(v, level).len()
                        && scan_tail(v, level)[q - 1] == v[p - 1 - 1]
                        && #[trigger] scan_tail(v, level)[q] == SPACE
                        && scan_tail(v, level)[q + 1] == v[p - 1 + 1];
                assert(v[p - 1 - 1] == w[p - 1]);
                assert(v[p - 1 + 1] == w[p + 1]);
                lemma_triple_through_prefix(w.take(1), t, out, w[p - 1], w[p + 1], q0);
            }
        }
    } else if level == 0 && w.len() >= 2 && w[0] == SPACE && w[1] == SPACE {
        // The run at the cursor is collapsed; the lone space sits past
        // its end, since a space borders it on neither side.
        lemma_run_end_spec(w, 2);
        let e = run_end(w, 2);
        assert(p - 1 >= 2);
        assert(p - 1 >= e) by {
            if p - 1 < e {
                assert(w[p - 1] == SPACE);
            }
        }
        let v = w.skip(e);
        let t = scan_tail(v, 0);
        assert(out == seq![SPACE] + t);
        lemma_lone_space_survives(v, 0, p - e);
        let q0 = choose|q: int|
            1 <= q && q + 1 < scan_tail(v, 0).len() && scan_tail(v, 0)[q - 1] == v[p - e - 1]
                && #[trigger] scan_tail(v, 0)[q] == SPACE && scan_tail(v, 0)[q + 1] == v[p - e + 1];
        assert(v[p - e - 1] == w[p - 1]);
        assert(v[p - e + 1] == w[p + 1]);
        lemma_triple_through_prefix(seq![SPACE], t, out, w[p - 1], w[p + 1], q0);
    } else {
        // An ordinary byte is passed through.
        assert(out == w.take(1) + scan_tail(w.skip(1), level));
        if p == 1 {
            lemma_triple_at_step(w, level);
            assert(1 <= 1 && 1 + 1 < out.len() && out[0] == w[0] && out[1] == SPACE
                && out[2] == w[2]);
        } else {
            let v = w.skip(1);
            let t = scan_tail(v, level);
            lemma_lone_space_survives(v, level, p - 1);
            let q0 = choose|q: int|
                1 <= q && q + 1 < scan_tail(v, level).len()
                    && scan_tail(v, level)[q - 1] == v[p - 1 - 1]
                    && #[trigger] scan_tail(v, level)[q] == SPACE
                    && scan_tail(v, level)[q + 1] == v[p - 1 + 1];
            assert(v[p - 1 - 1] == w[p - 1]);
            assert(v[p - 1 + 1] == w[p + 1]);
            lemma_triple_through_prefix(w.take(1), t, out, w[p - 1], w[p + 1], q0);
        }
    }
}

/// Holds when the first stop byte at or after `j` exists and is a
/// newline rather than a `>`.
pub open spec fn first_stop_is_newline(s: Seq<u8>, j: int) -> bool {
    match first_stop(s, j) {
        Option::Some(k) => s[k] == NEWLINE,
        Option::None => false,
    }
}

/// The first stop byte of `w.skip(d)`, sought from position 1, is the
/// newline that `w` has at `m`.
proof fn lemma_newline_in_skip(w: Seq<u8>, d: int, m: int)
    requires
        1 <= d < m < w.len(),
        w[m] == NEWLINE,
        forall|x: int| 1 <= x < m ==> !is_stop(#[trigger] w[x]),
    ensures
        first_stop_is_newline(w.skip(d), 1),
{
    let v = w.skip(d);
    assert(v[m - d] == w[m]);
    assert forall|x: int| 1 <= x < m - d implies !is_stop(#[trigger] v[x]) by {
        assert(v[x] == w[d + x]);
    }
    lemma_first_stop_found(v, 1, m - d);
}

/// Prepending `d` stop-free bytes, and a stop-free byte `t[0]`, keeps a
/// first-stop-is-newline outcome.
proof fn lemma_newline_out(w: Seq<u8>, d: int, t: Seq<u8>, out: Seq<u8>)
    requires
        1 <= d <= w.len(),
        out == w.take(d) + t,
        t.len() >= 1,
        !is_stop(t[0]),
        forall|x: int| 1 <= x < d ==> !is_stop(#[trigger] w[x]),
        first_stop_is_newline(t, 1),
    ensures
        first_stop_is_newline(out, 1),
{
    match first_stop(t, 1) {
        Option::None => {},
        Option::Some(q) => {
            lemma_first_stop_spec(t, 1);
            assert(out[q + d] == t[q]);
            assert forall|x: int| 1 <= x < q + d implies !is_stop(#[trigger] out[x]) by {
                if x < d {
                    assert(out[x] == w[x]);
                } else {
                    assert(out[x] == t[x - d]);
                }
            }
            lemma_first_stop_found(out, 1, q + d);
            assert(out[q + d] == NEWLINE);
        },
    }
}

/// When the tag scan that a pass is about to run would end on a newline,
/// the tag scan that a second pass runs over the output ends on a newline
/// as well: collapsing spaces never conjures up a terminating `>`.
#[verifier::rlimit(50)]
pub proof fn lemma_newline_outcome_preserved(w: Seq<u8>, level: nat)
    requires
        first_stop_is_newline(w, 1),
    ensures
        first_stop_is_newline(scan_tail(w, level), 1),
    decreases w.len(),
{
    lemma_first_stop_spec(w, 1);
    let m = match first_stop(w, 1) {
        Option::Some(mm) => mm,
        Option::None => 0,
    };
    assert(first_stop(w, 1) == Option::Some(m));
    assert(1 <= m < w.len() && w[m] == NEWLINE);
    let out = scan_tail(w, level);
    if w[0] == OPEN_ANGLE {
        lemma_first_stop_spec(w, 2);
        if level > 0 && w[1] == SLASH {
            match first_stop(w, 2) {
                Option::None => {
                    assert(false);
                },
                Option::Some(k) => {
                    assert(k == m);
                    if w[k] == NEWLINE {
                        let t = scan_tail(w.skip(1), level);
                        lemma_newline_in_skip(w, 1, m);
                        lemma_newline_outcome_preserved(w.skip(1), level);
                        lemma_scan_keeps_first(w.skip(1), level);
                        assert(t[0] == w[1]);
                        lemma_newline_out(w, 1, t, out);
                    } else {
                        assert(false);
                    }
                },
            }
        } else if evil_sigil(w[1]) {
            assert(m >= 2);
            let t = scan_tail(w.skip(1), level);
            lemma_newline_in_skip(w, 1, m);
            lemma_newline_outcome_preserved(w.skip(1), level);
            lemma_scan_keeps_first(w.skip(1), level);
            assert(t[0] == w[1]);
            lemma_newline_out(w, 1, t, out);
        } else {
            match first_stop(w, 2) {
                Option::None => {},
                Option::Some(k) => {
                    if w[k] == NEWLINE {
                        let t = scan_tail(w.skip(1), level);
                        lemma_scan_keeps_first(w.skip(1), level);
                        assert(t[0] == w[1]);
                        if m == 1 {
                            assert(out[1] == t[0]);
                            lemma_first_stop_found(out, 1, 1);
                        } else {
                            lemma_newline_in_skip(w, 1, m);
                            lemma_newline_outcome_preserved(w.skip(1), level);
                            lemma_newline_out(w, 1, t, out);
                        }
                    } else {
                        let lvl2: nat = if w[k - 1] == SLASH {
                            level
                        } else {
                            (level + 1) as nat
                        };
                        if m == 1 {
                            assert(out[1] == w[1]);
                            lemma_first_stop_found(out, 1, 1);
                        } else {
                            assert(false);
                        }
                    }
                },
            }
        }
    } else if level == 0 && w.len() >= 2 && w[0] == SPACE && w[1] == SPACE {
        lemma_run_end_spec(w, 2);
        let e = run_end(w, 2);
        assert(m >= e) by {
            if m < e {
                assert(w[m] == SPACE);
            }
        }
        let t = scan_tail(w.skip(e), 0);
        if m == e {
            lemma_scan_keeps_first(w.skip(e), 0);
            assert(t[0] == w[e]);
            assert(out[1] == t[0]);
            lemma_first_stop_found(out, 1, 1);
        } else {
            lemma_newline_in_skip(w, e, m);
            lemma_newline_outcome_preserved(w.skip(e), 0);
            lemma_scan_keeps_first(w.skip(e), 0);
            assert(t[0] == w[e]);
            assert(seq![SPACE] =~= w.take(1));
            lemma_newline_out(w, 1, t, out);
        }
    } else {
        let t = scan_tail(w.skip(1), level);
        lemma_scan_keeps_first(w.skip(1), level);
        assert(t[0] == w[1]);
        if m == 1 {
            assert(out[1] == t[0]);
            lemma_first_stop_found(out, 1, 1);
        } else {
            lemma_newline_in_skip(w, 1, m);
            lemma_newline_outcome_preserved(w.skip(1), level);
            lemma_newline_out(w, 1, t, out);
        }
    }
}

/// A pass is idempotent: scanning the output of a pass, from the same
/// starting level, changes nothing more.  In particular a buffer already
/// collapsed once comes through a second full scan untouched, so the
/// second scan reports no modification.
#[verifier::rlimit(80)]
pub proof fn lemma_scan_idempotent(w: Seq<u8>, level: nat)
    ensures
        scan_tail(scan_tail(w, level), level) == scan_tail(w, level),
    decreases w.len(),
{
    let out = scan_tail(w, level);
    if w.len() == 0 {
    } else if w[0] == OPEN_ANGLE {
        if w.len() < 2 {
        } else if level > 0 && w[1] == SLASH {
            lemma_first_stop_spec(w, 2);
            match first_stop(w, 2) {
                Option::None => {},
                Option::Some(k) => {
                    if w[k] == NEWLINE {
                        let v = w.skip(1);
                        let t = scan_tail(v, level);
                        lemma_scan_keeps_first(v, level);
                        assert(out[0] == w[0]);
                        assert(out[1] == t[0]);
                        assert(t[0] == w[1]);
                        assert(v[k - 1] == w[k]);
                        assert forall|x: int| 1 <= x < k - 1 implies !is_stop(#[trigger] v[x]) by {
                            assert(v[x] == w[1 + x]);
                        }
                        lemma_first_stop_found(v, 1, k - 1);
                        lemma_newline_outcome_preserved(v, level);
                        match first_stop(t, 1) {
                            Option::None => {
                                assert(false);
                            },
                            Option::Some(q) => {
                                lemma_first_stop_spec(t, 1);
                                assert(out[q + 1] == t[q]);
                                assert forall|x: int|
                                    2 <= x < q + 1 implies !is_stop(#[trigger] out[x]) by {
                                    assert(out[x] == t[x - 1]);
                                }
                                lemma_first_stop_found(out, 2, q + 1);
                                assert(out[q + 1] == NEWLINE);
                                assert(scan_tail(out, level) == out.take(1) + scan_tail(
                                    out.skip(1),
                                    level,
                                ));
                                assert(out.skip(1) =~= t);
                                lemma_scan_idempotent(v, level);
                                assert(out.take(1) + t =~= out);
                            },
                        }
                    } else {
                        let v = w.skip(k + 1);
                        let t = scan_tail(v, (level - 1) as nat);
                        assert(out[0] == w[0]);
                        assert(out[1] == w[1]);
                        assert(out[k] == w[k]);
                        assert forall|x: int| 2 <= x < k implies !is_stop(#[trigger] out[x]) by {
                            assert(out[x] == w[x]);
                        }
                        lemma_first_stop_found(out, 2, k);
                        assert(scan_tail(out, level) == out.take(k + 1) + scan_tail(
                            out.skip(k + 1),
                            (level - 1) as nat,
                        ));
                        assert(out.skip(k + 1) =~= t);
                        lemma_scan_idempotent(v, (level - 1) as nat);
                        assert(out.take(k + 1) + t =~= out);
                    }
                },
            }
        } else if evil_sigil(w[1]) {
            let v = w.skip(1);
            let t = scan_tail(v, level);
            lemma_scan_keeps_first(v, level);
            assert(out[0] == w[0]);
            assert(out[1] == t[0]);
            assert(t[0] == w[1]);
            assert(scan_tail(out, level) == out.take(1) + scan_tail(out.skip(1), level));
            assert(out.skip(1) =~= t);
            lemma_scan_idempotent(v, level);
            assert(out.take(1) + t =~= out);
        } else {
            lemma_first_stop_spec(w, 2);
            match first_stop(w, 2) {
                Option::None => {},
                Option::Some(k) => {
                    if w[k] == NEWLINE {
                        let v = w.skip(1);
                        let t = scan_tail(v, level);
                        lemma_scan_keeps_first(v, level);
                        assert(out[0] == w[0]);
                        assert(out[1] == t[0]);
                        assert(t[0] == w[1]);
                        assert(v[k - 1] == w[k]);
                        assert forall|x: int| 1 <= x < k - 1 implies !is_stop(#[trigger] v[x]) by {
                            assert(v[x] == w[1 + x]);
                        }
                        lemma_first_stop_found(v, 1, k - 1);
                        lemma_newline_outcome_preserved(v, level);
                        match first_stop(t, 1) {
                            Option::None => {
                                assert(false);
                            },
                            Option::Some(q) => {
                                lemma_first_stop_spec(t, 1);
                                assert(out[q + 1] == t[q]);
                                assert forall|x: int|
                                    2 <= x < q + 1 implies !is_stop(#[trigger] out[x]) by {
                                    assert(out[x] == t[x - 1]);
                                }
                                lemma_first_stop_found(out, 2, q + 1);
                                assert(out[q + 1] == NEWLINE);
                                assert(scan_tail(out, level) == out.take(1) + scan_tail(
                                    out.skip(1),
                                    level,
                                ));
                                assert(out.skip(1) =~= t);
                                lemma_scan_idempotent(v, level);
                                assert(out.take(1) + t =~= out);
                            },
                        }
                    } else {
                        let lvl2: nat = if w[k - 1] == SLASH {
                            level
                        } else {
                            (level + 1) as nat
                        };
                        let v = w.skip(k + 1);
                        let t = scan_tail(v, lvl2);
                        assert(out[0] == w[0]);
                        assert(out[1] == w[1]);
                        assert(out[k] == w[k]);
                        assert(out[k - 1] == w[k - 1]);
                        assert forall|x: int| 2 <= x < k implies !is_stop(#[trigger] out[x]) by {
                            assert(out[x] == w[x]);
                        }
                        lemma_first_stop_found(out, 2, k);
                        assert(scan_tail(out, level) == out.take(k + 1) + scan_tail(
                            out.skip(k + 1),
                            lvl2,
                        ));
                        assert(out.skip(k + 1) =~= t);
                        lemma_scan_idempotent(v, lvl2);
                        assert(out.take(k + 1) + t =~= out);
                    }
                },
            }
        }
    } else if level == 0 && w.len() >= 2 && w[0] == SPACE && w[1] == SPACE {
        lemma_run_end_spec(w, 2);
        let e = run_end(w, 2);
        let v = w.skip(e);
        let t = scan_tail(v, 0);
        lemma_scan_idempotent(v, 0);
        if e < w.len() {
            lemma_scan_keeps_first(v, 0);
            assert(out[1] == t[0]);
            assert(t[0] == w[e]);
            assert(t[0] != SPACE);
        } else {
            assert(v.len() == 0);
            assert(t.len() == 0);
        }
        assert(scan_tail(out, level) == out.take(1) + scan_tail(out.skip(1), 0));
        assert(out.skip(1) =~= t);
        assert(out.take(1) + t =~= out);
    } else {
        let v = w.skip(1);
        let t = scan_tail(v, level);
        if w.len() >= 2 {
            lemma_scan_keeps_first(v, level);
            assert(out[1] == t[0]);
            assert(t[0] == w[1]);
        } else {
            assert(v.len() == 0);
            assert(t.len() == 0);
        }
        assert(out[0] == w[0]);
        assert(scan_tail(out, level) == out.take(1) + scan_tail(out.skip(1), level));
        assert(out.skip(1) =~= t);
        lemma_scan_idempotent(v, level);
        assert(out.take(1) + t =~= out);
    }
}

} // verus!
