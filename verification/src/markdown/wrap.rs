//! Soft wrapping of text into lines of limited length.

use vstd::prelude::*;

use crate::text::{chars_of, is_white, lemma_views_push, string_of, sub_vec, views, white};

verus! {

/// The words of `s`: its maximal runs of characters other than white space.
pub open spec fn words(s: Seq<char>) -> Seq<Seq<char>>
    decreases s.len(),
{
    if s.len() == 0 {
        Seq::empty()
    } else {
        let head = words(s.drop_last());
        let c = s.last();
        if is_white(c) {
            head
        } else if s.len() >= 2 && !is_white(s[s.len() - 2]) {
            head.update(head.len() - 1, head.last().push(c))
        } else {
            head.push(seq![c])
        }
    }
}

/// The words of `cs`.
pub fn words_of(cs: &[char]) -> (r: Vec<Vec<char>>)
    ensures
        views(r@) == words(cs@),
{
    let mut out: Vec<Vec<char>> = Vec::new();
    let mut cur: Vec<char> = Vec::new();
    let mut i: usize = 0;
    proof {
        assert(views(out@) =~= words(cs@.take(0)));
    }
    while i < cs.len()
        invariant
            i <= cs@.len(),
            cur@.len() > 0 <==> (i > 0 && !is_white(cs@[i - 1])),
            words(cs@.take(i as int)) == (if cur@.len() > 0 {
                views(out@).push(cur@)
            } else {
                views(out@)
            }),
        decreases cs@.len() - i,
    {
        let c = cs[i];
        let ghost t = cs@.take(i + 1);
        proof {
            assert(t.drop_last() =~= cs@.take(i as int));
            assert(t.last() == c);
            if i > 0 {
                assert(t[t.len() - 2] == cs@[i - 1]);
            }
        }
        if white(c) {
            if cur.len() > 0 {
                proof {
                    lemma_views_push(out@, cur);
                }
                out.push(cur);
                cur = Vec::new();
            }
        } else {
            let ghost before = words(cs@.take(i as int));
            let ghost old_cur = cur@;
            cur.push(c);
            proof {
                if old_cur.len() > 0 {
                    assert(before.last() == old_cur);
                    assert(before.update(before.len() - 1, old_cur.push(c)) =~= views(out@).push(
                        cur@,
                    ));
                } else {
                    assert(cur@ =~= seq![c]);
                }
            }
        }
        i += 1;
    }
    proof {
        assert(cs@.take(i as int) =~= cs@);
    }
    if cur.len() > 0 {
        proof {
            lemma_views_push(out@, cur);
        }
        out.push(cur);
    }
    out
}

/// `w` in pieces of `max` characters, the last of them possibly shorter.
pub open spec fn chunks(w: Seq<char>, max: int) -> Seq<Seq<char>>
    decreases w.len(),
{
    if max <= 0 || w.len() <= max {
        seq![w]
    } else {
        seq![w.take(max)] + chunks(w.skip(max), max)
    }
}

/// The finished lines and the open one after one more word: the word goes to
/// the open line if it fits there, else to a new line, cut into pieces if it is
/// longer than a line.
pub open spec fn wrap_step(st: (Seq<Seq<char>>, Seq<char>), w: Seq<char>, max: int) -> (
    Seq<Seq<char>>,
    Seq<char>,
) {
    let (out, cur) = st;
    if cur.len() == 0 && w.len() <= max {
        (out, w)
    } else if cur.len() > 0 && cur.len() + 1 + w.len() <= max {
        (out, cur + seq![' '] + w)
    } else {
        let flushed = if cur.len() > 0 {
            out.push(cur)
        } else {
            out
        };
        let cs = chunks(w, max);
        (flushed + cs.drop_last(), cs.last())
    }
}

/// The finished lines and the open one after the words.
pub open spec fn wrap_words(ws: Seq<Seq<char>>, max: int) -> (Seq<Seq<char>>, Seq<char>)
    decreases ws.len(),
{
    if ws.len() == 0 {
        (Seq::empty(), Seq::empty())
    } else {
        wrap_step(wrap_words(ws.drop_last(), max), ws.last(), max)
    }
}

/// `s` in lines of at most `max` characters. Without a limit, or without text,
/// `s` is one line as it is.
pub open spec fn wrapped(s: Seq<char>, max: int) -> Seq<Seq<char>> {
    if max == 0 || s.len() == 0 {
        seq![s]
    } else {
        let (out, cur) = wrap_words(words(s), max);
        if cur.len() > 0 {
            out.push(cur)
        } else if out.len() > 0 {
            out
        } else {
            seq![Seq::empty()]
        }
    }
}

proof fn lemma_chunks_nonempty(w: Seq<char>, max: int)
    ensures
        chunks(w, max).len() >= 1,
    decreases w.len(),
{
    if max > 0 && w.len() > max {
        lemma_chunks_nonempty(w.skip(max), max);
    }
}

/// Places a word: the finished lines grow, and the open line comes back.
fn place_word(out: &mut Vec<Vec<char>>, cur: Vec<char>, w: &Vec<char>, max: usize) -> (r: Vec<char>)
    requires
        max > 0,
    ensures
        (views(final(out)@), r@) == wrap_step((views(old(out)@), cur@), w@, max as int),
{
    let fits = if cur.len() == 0 {
        w.len() <= max
    } else {
        cur.len() < max && w.len() <= max - cur.len() - 1
    };
    let mut cur = cur;
    if fits {
        let ghost c0 = cur@;
        if cur.len() > 0 {
            cur.push(' ');
        }
        let mut tail = sub_vec(w.as_slice(), 0, w.len());
        cur.append(&mut tail);
        proof {
            if c0.len() > 0 {
                assert(cur@ =~= c0 + seq![' '] + w@);
            } else {
                assert(cur@ =~= w@);
            }
        }
        return cur;
    }
    let ghost out0 = views(out@);
    let ghost cur0 = cur@;
    let ghost flushed = if cur0.len() > 0 {
        out0.push(cur0)
    } else {
        out0
    };
    if cur.len() > 0 {
        proof {
            lemma_views_push(out@, cur);
        }
        out.push(cur);
    }
    let mut k: usize = 0;
    proof {
        assert(w@.skip(0) =~= w@);
        lemma_chunks_nonempty(w@, max as int);
        let cs = chunks(w@, max as int);
        assert(flushed + cs.drop_last() =~= flushed + cs.drop_last());
    }
    while w.len() - k > max
        invariant
            max > 0,
            k <= w@.len(),
            chunks(w@.skip(k as int), max as int).len() >= 1,
            chunks(w@, max as int).len() >= 1,
            flushed + chunks(w@, max as int).drop_last() == views(out@) + chunks(
                w@.skip(k as int),
                max as int,
            ).drop_last(),
            chunks(w@, max as int).last() == chunks(w@.skip(k as int), max as int).last(),
        decreases w@.len() - k,
    {
        let piece = sub_vec(w.as_slice(), k, k + max);
        proof {
            let rest = w@.skip(k as int);
            let tail = w@.skip(k + max);
            assert(rest.skip(max as int) =~= tail);
            assert(rest.take(max as int) =~= piece@);
            lemma_chunks_nonempty(tail, max as int);
            let c1 = chunks(rest, max as int);
            let c2 = chunks(tail, max as int);
            assert(c1 =~= seq![piece@] + c2);
            assert(c1.drop_last() =~= seq![piece@] + c2.drop_last());
            assert(c1.last() == c2.last());
            lemma_views_push(out@, piece);
            assert(views(out@) + (seq![piece@] + c2.drop_last()) =~= views(out@).push(piece@)
                + c2.drop_last());
        }
        out.push(piece);
        k = k + max;
    }
    proof {
        let rest = w@.skip(k as int);
        assert(chunks(rest, max as int) =~= seq![rest]);
        assert(chunks(rest, max as int).drop_last() =~= Seq::<Seq<char>>::empty());
        assert(views(out@) + Seq::<Seq<char>>::empty() =~= views(out@));
    }
    let last = sub_vec(w.as_slice(), k, w.len());
    proof {
        assert(last@ =~= w@.skip(k as int));
    }
    last
}

/// Wraps `s` into lines of at most `max_chars` characters, breaking overlong
/// words.
pub fn wrap_text(s: &str, max_chars: usize) -> (r: Vec<String>)
    ensures
        views(r@) == wrapped(s@, max_chars as int),
{
    let cs = chars_of(s);
    let mut res: Vec<String> = Vec::new();
    if max_chars == 0 || cs.len() == 0 {
        res.push(s.to_owned());
        proof {
            assert(views(res@) =~= seq![s@]);
        }
        return res;
    }
    let ws = words_of(cs.as_slice());
    let ghost all = views(ws@);
    let mut out: Vec<Vec<char>> = Vec::new();
    let mut cur: Vec<char> = Vec::new();
    let mut i: usize = 0;
    proof {
        assert(all.take(0) =~= Seq::<Seq<char>>::empty());
        assert(views(out@) =~= Seq::<Seq<char>>::empty());
        assert(cur@ =~= Seq::<char>::empty());
    }
    while i < ws.len()
        invariant
            max_chars > 0,
            all == views(ws@),
            i <= ws@.len(),
            (views(out@), cur@) == wrap_words(all.take(i as int), max_chars as int),
        decreases ws@.len() - i,
    {
        proof {
            assert(all.take(i + 1).drop_last() =~= all.take(i as int));
            assert(all.take(i + 1).last() == ws@[i as int]@);
        }
        cur = place_word(&mut out, cur, &ws[i], max_chars);
        i += 1;
    }
    proof {
        assert(all.take(i as int) =~= all);
    }
    if cur.len() > 0 {
        proof {
            lemma_views_push(out@, cur);
        }
        out.push(cur);
    } else if out.len() == 0 {
        proof {
            lemma_views_push(out@, cur);
            assert(views(out@) =~= Seq::<Seq<char>>::empty());
            assert(cur@ =~= Seq::<char>::empty());
            assert(Seq::<Seq<char>>::empty().push(cur@) =~= seq![Seq::<char>::empty()]);
        }
        out.push(cur);
    }
    let ghost lines = views(out@);
    let mut k: usize = 0;
    while k < out.len()
        invariant
            lines == views(out@),
            k <= out@.len(),
            views(res@) == lines.take(k as int),
        decreases out@.len() - k,
    {
        let line = string_of(out[k].as_slice(), 0, out[k].len());
        proof {
            assert(line@ =~= lines[k as int]);
            lemma_views_push(res@, line);
            assert(lines.take(k + 1) =~= lines.take(k as int).push(lines[k as int]));
        }
        res.push(line);
        k += 1;
    }
    proof {
        assert(lines.take(k as int) =~= lines);
    }
    res
}

// ---------------------------------------------------------------------------
// Laws
// ---------------------------------------------------------------------------

/// Whether no line is longer than `max`.
pub open spec fn all_within(ls: Seq<Seq<char>>, max: int) -> bool {
    forall|i: int| 0 <= i < ls.len() ==> (#[trigger] ls[i]).len() <= max
}

proof fn lemma_chunks_within(w: Seq<char>, max: int)
    requires
        max > 0,
    ensures
        all_within(chunks(w, max), max),
        chunks(w, max).len() >= 1,
    decreases w.len(),
{
    if w.len() > max {
        lemma_chunks_within(w.skip(max), max);
        let rest = chunks(w.skip(max), max);
        assert forall|i: int| 0 <= i < chunks(w, max).len() implies (#[trigger] chunks(
            w,
            max,
        )[i]).len() <= max by {
            if i > 0 {
                assert(chunks(w, max)[i] == rest[i - 1]);
            }
        }
    }
}

proof fn lemma_wrap_within(ws: Seq<Seq<char>>, max: int)
    requires
        max > 0,
    ensures
        all_within(wrap_words(ws, max).0, max),
        wrap_words(ws, max).1.len() <= max,
    decreases ws.len(),
{
    if ws.len() > 0 {
        lemma_wrap_within(ws.drop_last(), max);
        let (out, cur) = wrap_words(ws.drop_last(), max);
        let w = ws.last();
        lemma_chunks_within(w, max);
        let cs = chunks(w, max);
        let r = wrap_words(ws, max);
        assert(cs.last() == cs[cs.len() - 1]);
        assert forall|i: int| 0 <= i < r.0.len() implies (#[trigger] r.0[i]).len() <= max by {
            if i < out.len() {
                assert(r.0[i] == out[i]);
            } else if r.0 != out {
                let flushed = if cur.len() > 0 {
                    out.push(cur)
                } else {
                    out
                };
                if i >= flushed.len() {
                    assert(r.0[i] == cs[i - flushed.len()]);
                }
            }
        }
    }
}

/// No line of a wrapped text is longer than the limit.
pub proof fn law_wrapped_lines_fit(s: Seq<char>, max: int)
    requires
        max > 0,
    ensures
        all_within(wrapped(s, max), max),
{
    if s.len() > 0 {
        lemma_wrap_within(words(s), max);
    }
}

/// The characters of `s` that are not white space.
pub open spec fn ink(s: Seq<char>) -> Seq<char>
    decreases s.len(),
{
    if s.len() == 0 {
        Seq::empty()
    } else if is_white(s.last()) {
        ink(s.drop_last())
    } else {
        ink(s.drop_last()).push(s.last())
    }
}

/// The characters of the lines that are not white space.
pub open spec fn ink_of(ls: Seq<Seq<char>>) -> Seq<char>
    decreases ls.len(),
{
    if ls.len() == 0 {
        Seq::empty()
    } else {
        ink_of(ls.drop_last()) + ink(ls.last())
    }
}

/// The characters of a joined text are those of its parts.
pub proof fn lemma_ink_add(a: Seq<char>, b: Seq<char>)
    ensures
        ink(a + b) == ink(a) + ink(b),
    decreases b.len(),
{
    if b.len() == 0 {
        assert(a + b =~= a);
        assert(ink(a) + ink(b) =~= ink(a));
    } else {
        assert((a + b).drop_last() =~= a + b.drop_last());
        assert((a + b).last() == b.last());
        lemma_ink_add(a, b.drop_last());
        assert(ink(a + b) =~= ink(a) + ink(b));
    }
}

proof fn lemma_ink_of_add(a: Seq<Seq<char>>, b: Seq<Seq<char>>)
    ensures
        ink_of(a + b) == ink_of(a) + ink_of(b),
    decreases b.len(),
{
    if b.len() == 0 {
        assert(a + b =~= a);
        assert(ink_of(a) + ink_of(b) =~= ink_of(a));
    } else {
        assert((a + b).drop_last() =~= a + b.drop_last());
        assert((a + b).last() == b.last());
        lemma_ink_of_add(a, b.drop_last());
        assert(ink_of(a + b) =~= ink_of(a) + ink_of(b));
    }
}

proof fn lemma_ink_of_one(l: Seq<char>)
    ensures
        ink_of(seq![l]) == ink(l),
{
    assert(seq![l].drop_last() =~= Seq::<Seq<char>>::empty());
    assert(ink_of(Seq::<Seq<char>>::empty()) =~= Seq::<char>::empty());
    assert(seq![l].last() == l);
    assert(ink_of(seq![l]) == Seq::<char>::empty() + ink(l));
    assert(ink_of(seq![l]) =~= ink(l));
}

proof fn lemma_ink_chunks(w: Seq<char>, max: int)
    ensures
        ink_of(chunks(w, max)) == ink(w),
    decreases w.len(),
{
    if max <= 0 || w.len() <= max {
        lemma_ink_of_one(w);
    } else {
        lemma_ink_chunks(w.skip(max), max);
        lemma_ink_of_add(seq![w.take(max)], chunks(w.skip(max), max));
        lemma_ink_of_one(w.take(max));
        lemma_ink_add(w.take(max), w.skip(max));
        assert(w.take(max) + w.skip(max) =~= w);
    }
}

proof fn lemma_ink_words(s: Seq<char>)
    ensures
        ink_of(words(s)) == ink(s),
        s.len() > 0 && !is_white(s.last()) ==> words(s).len() > 0,
    decreases s.len(),
{
    if s.len() > 0 {
        let d = s.drop_last();
        let h = words(d);
        let c = s.last();
        lemma_ink_words(d);
        if !is_white(c) {
            if s.len() >= 2 && !is_white(s[s.len() - 2]) {
                assert(d.last() == s[s.len() - 2]);
                let l = h.last();
                assert(words(s).drop_last() =~= h.drop_last());
                lemma_ink_add(l, seq![c]);
                assert(l + seq![c] =~= l.push(c));
                assert(seq![c].drop_last() =~= Seq::<char>::empty());
                assert(ink(seq![c]) =~= seq![c]) by {
                    reveal_with_fuel(ink, 2);
                }
                assert(ink_of(words(s)) =~= ink(s));
            } else {
                assert(words(s).drop_last() =~= h);
                assert(seq![c].drop_last() =~= Seq::<char>::empty());
                assert(ink(seq![c]) =~= seq![c]) by {
                    reveal_with_fuel(ink, 2);
                }
                assert(ink_of(words(s)) =~= ink(s));
            }
        }
    }
}

proof fn lemma_ink_wrap(ws: Seq<Seq<char>>, max: int)
    ensures
        ink_of(wrap_words(ws, max).0) + ink(wrap_words(ws, max).1) == ink_of(ws),
    decreases ws.len(),
{
    if ws.len() == 0 {
        assert(ink_of(wrap_words(ws, max).0) + ink(wrap_words(ws, max).1) =~= ink_of(ws));
    } else {
        let d = ws.drop_last();
        lemma_ink_wrap(d, max);
        let (out, cur) = wrap_words(d, max);
        let w = ws.last();
        let r = wrap_words(ws, max);
        if cur.len() == 0 && w.len() <= max {
            assert(ink(cur) =~= Seq::<char>::empty());
            assert(ink_of(r.0) + ink(r.1) =~= ink_of(ws));
        } else if cur.len() > 0 && cur.len() + 1 + w.len() <= max {
            lemma_ink_add(cur + seq![' '], w);
            lemma_ink_add(cur, seq![' ']);
            assert(seq![' '].drop_last() =~= Seq::<char>::empty());
            assert(ink(seq![' ']) =~= Seq::<char>::empty()) by {
                reveal_with_fuel(ink, 2);
            }
            assert(ink_of(r.0) + ink(r.1) =~= ink_of(ws));
        } else {
            let flushed = if cur.len() > 0 {
                out.push(cur)
            } else {
                out
            };
            let cs = chunks(w, max);
            lemma_chunks_nonempty(w, max);
            lemma_ink_chunks(w, max);
            lemma_ink_of_add(flushed, cs.drop_last());
            if cur.len() > 0 {
                assert(flushed.drop_last() =~= out);
            } else {
                assert(ink(cur) =~= Seq::<char>::empty());
            }
            assert(ink_of(flushed) =~= ink_of(out) + ink(cur));
            assert(ink_of(cs) == ink_of(cs.drop_last()) + ink(cs.last()));
            assert(ink_of(r.0) + ink(r.1) =~= ink_of(ws));
        }
    }
}

/// Wrapping loses no text: the lines hold the characters of the text that are
/// not white space, in order.
pub proof fn law_wrapping_loses_nothing(s: Seq<char>, max: int)
    requires
        max >= 0,
    ensures
        ink_of(wrapped(s, max)) == ink(s),
{
    if max == 0 || s.len() == 0 {
        lemma_ink_of_one(s);
    } else {
        lemma_ink_words(s);
        lemma_ink_wrap(words(s), max);
        let (out, cur) = wrap_words(words(s), max);
        if cur.len() > 0 {
            assert(out.push(cur).drop_last() =~= out);
        } else if out.len() > 0 {
            assert(ink_of(out) + ink(cur) =~= ink_of(out));
        } else {
            lemma_ink_of_one(Seq::empty());
            assert(ink_of(out) + ink(cur) =~= ink(Seq::<char>::empty()));
        }
    }
}

} // verus!
