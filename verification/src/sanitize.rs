//! Cleaning the raw output of a command-line agent: terminal control
//! sequences and per-line artifacts are removed, and images named in the
//! text become attachment markers.

use crate::attachment::{
    bracketed, closed, lemma_marker_taken, lemma_name_round_trip, scan, AttachmentKind, Marker,
    Scan,
};
use crate::text::{
    ascii_lower, chars_of, contains, ends_with, find, find_in, is_space, leading, lemma_find,
    lemma_find_char, lemma_leading, lemma_leading_is, lemma_occurrence_is_found,
    lemma_occurs_at_skip, lemma_occurs_inside, lemma_trailing, lower_range, matches_at,
    occurs_at, push_range, push_str, skip_leading, starts_with, string_of, strip, strip_bounds,
    strip_start, trailing, trim, CharClass,
};
use vstd::prelude::*;

verus! {

/// The character that introduces a terminal control sequence.
pub const ESCAPE: char = '\u{1b}';

/// How many characters at the start of `body` belong to a control sequence
/// whose introducer has just been read: everything up to the first ASCII
/// letter and that letter, or all of `body` where it holds no letter.
pub open spec fn sequence_len(body: Seq<char>) -> int {
    let n = leading(body, CharClass::NonLetter);
    if n < body.len() {
        n as int + 1
    } else {
        n as int
    }
}

/// `s` without its control sequences. A sequence begins with the escape
/// character followed at once by `[`, and ends with the first ASCII letter
/// after that. Every other character stays, an escape character that no `[`
/// follows too.
pub open spec fn strip_control(s: Seq<char>) -> Seq<char>
    decreases s.len(),
    via strip_control_decreases
{
    if s.len() == 0 {
        s
    } else if s.len() >= 2 && s[0] == ESCAPE && s[1] == '[' {
        strip_control(s.skip(2 + sequence_len(s.skip(2))))
    } else {
        seq![s[0]] + strip_control(s.skip(1))
    }
}

#[via_fn]
proof fn strip_control_decreases(s: Seq<char>) {
    if s.len() >= 2 {
        lemma_leading(s.skip(2), CharClass::NonLetter);
    }
}

/// Removes the terminal control sequences from `v`.
///
/// The scan is in one of two states: it copies characters, or it is inside
/// a control sequence and drops them until the letter that ends it.
pub(crate) fn strip_control_chars(v: &Vec<char>) -> (out: Vec<char>)
    ensures
        out@ == strip_control(v@),
{
    let ghost s = v@;
    let n = v.len();
    let mut out: Vec<char> = Vec::new();
    let mut inside = false;
    let mut i: usize = 0;
    assert(s.skip(0) =~= s);
    assert(Seq::<char>::empty() + strip_control(s) =~= strip_control(s));
    while i < n
        invariant
            s == v@,
            n == v.len(),
            i <= n,
            !inside ==> strip_control(s) == out@ + strip_control(s.skip(i as int)),
            inside ==> i + sequence_len(s.skip(i as int)) <= n && strip_control(s) == out@
                + strip_control(s.skip(i + sequence_len(s.skip(i as int)))),
        decreases n - i,
    {
        let c = v[i];
        let ghost t = s.skip(i as int);
        if inside {
            proof {
                let u = s.skip(i + 1);
                assert(t.skip(1) =~= u);
                lemma_leading(u, CharClass::NonLetter);
                if CharClass::NonLetter.has(c) {
                    assert(sequence_len(t) == 1 + sequence_len(u));
                } else {
                    assert(sequence_len(t) == 1);
                }
            }
            if !CharClass::NonLetter.contains(c) {
                inside = false;
            }
            i += 1;
        } else if c == ESCAPE && i + 1 < n && v[i + 1] == '[' {
            proof {
                assert(t.skip(2) =~= s.skip(i + 2));
                lemma_leading(s.skip(i + 2), CharClass::NonLetter);
                assert(t.skip(2 + sequence_len(t.skip(2))) =~= s.skip(
                    i + 2 + sequence_len(s.skip(i + 2)),
                ));
            }
            inside = true;
            i += 2;
        } else {
            proof {
                assert(t.skip(1) =~= s.skip(i + 1));
                assert(out@ + (seq![c] + strip_control(s.skip(i + 1))) =~= out@.push(c)
                    + strip_control(s.skip(i + 1)));
            }
            out.push(c);
            i += 1;
        }
    }
    proof {
        let e = s.skip(n as int);
        assert(e.len() == 0);
        assert(sequence_len(e) == 0);
        assert(out@ + strip_control(e) =~= out@);
    }
    out
}

/// `line` without one carriage return at its end.
pub open spec fn without_return(line: Seq<char>) -> Seq<char> {
    if line.len() > 0 && line.last() == '\r' {
        line.drop_last()
    } else {
        line
    }
}

/// The lines of `s`. A line ends with a line feed, or with a carriage
/// return and a line feed; neither belongs to the line. The last line need
/// not be ended, and empty text has no line.
pub open spec fn lines(s: Seq<char>) -> Seq<Seq<char>>
    decreases s.len(),
    via lines_decreases
{
    if s.len() == 0 {
        Seq::empty()
    } else {
        match find(s, seq!['\n']) {
            None => seq![s],
            Some(i) => seq![without_return(s.take(i))] + lines(s.skip(i + 1)),
        }
    }
}

#[via_fn]
proof fn lines_decreases(s: Seq<char>) {
    lemma_find(s, seq!['\n']);
}

/// `line` without the artifacts that a terminal renderer leaves: the prefix
/// `> ` goes where it is there; then the suffix `mm` goes, or else the
/// suffix `m`.
pub open spec fn clean_line(line: Seq<char>) -> Seq<char> {
    let l = if starts_with(line, seq!['>', ' ']) {
        line.skip(2)
    } else {
        line
    };
    if ends_with(l, seq!['m', 'm']) {
        l.take(l.len() - 2)
    } else if ends_with(l, seq!['m']) {
        l.take(l.len() - 1)
    } else {
        l
    }
}

/// The lines put together again, a line feed between each two.
pub open spec fn join_lines(ls: Seq<Seq<char>>) -> Seq<char>
    decreases ls.len(),
{
    if ls.len() == 0 {
        Seq::empty()
    } else if ls.len() == 1 {
        ls[0]
    } else {
        ls[0] + seq!['\n'] + join_lines(ls.skip(1))
    }
}

/// Every line of `s` cleaned, and the lines joined again.
pub open spec fn clean_lines(s: Seq<char>) -> Seq<char> {
    join_lines(lines(s).map_values(|l: Seq<char>| clean_line(l)))
}

/// The bounds of the line `v[lo..hi]` without its artifacts.
fn clean_line_bounds(v: &Vec<char>, lo: usize, hi: usize) -> (r: (usize, usize))
    requires
        lo <= hi <= v.len(),
    ensures
        lo <= r.0 <= r.1 <= hi,
        v@.subrange(r.0 as int, r.1 as int) == clean_line(v@.subrange(lo as int, hi as int)),
{
    let ghost line = v@.subrange(lo as int, hi as int);
    let a = if hi - lo >= 2 && v[lo] == '>' && v[lo + 1] == ' ' {
        assert(line.subrange(0, 2) =~= seq!['>', ' ']);
        lo + 2
    } else {
        proof {
            if starts_with(line, seq!['>', ' ']) {
                assert(line.subrange(0, 2)[0] == '>');
                assert(line.subrange(0, 2)[1] == ' ');
            }
        }
        lo
    };
    let ghost l = v@.subrange(a as int, hi as int);
    assert(l =~= if starts_with(line, seq!['>', ' ']) {
        line.skip(2)
    } else {
        line
    });
    let b = if hi - a >= 2 && v[hi - 1] == 'm' && v[hi - 2] == 'm' {
        assert(l.subrange(l.len() - 2, l.len() as int) =~= seq!['m', 'm']);
        hi - 2
    } else if hi - a >= 1 && v[hi - 1] == 'm' {
        proof {
            if ends_with(l, seq!['m', 'm']) {
                assert(l.subrange(l.len() - 2, l.len() as int)[0] == 'm');
                assert(l.subrange(l.len() - 2, l.len() as int)[1] == 'm');
            }
            assert(l.subrange(l.len() - 1, l.len() as int) =~= seq!['m']);
        }
        hi - 1
    } else {
        proof {
            if ends_with(l, seq!['m', 'm']) {
                assert(l.subrange(l.len() - 2, l.len() as int)[1] == 'm');
            }
            if ends_with(l, seq!['m']) {
                assert(l.subrange(l.len() - 1, l.len() as int)[0] == 'm');
            }
        }
        hi
    };
    assert(v@.subrange(a as int, b as int) =~= l.take(b - a));
    (a, b)
}

/// Cleans every line of `v` and joins the lines again.
pub(crate) fn clean_line_artifacts(v: &Vec<char>) -> (out: Vec<char>)
    ensures
        out@ == clean_lines(v@),
{
    let ghost s = v@;
    let ghost cleaned = |l: Seq<char>| clean_line(l);
    let n = v.len();
    let feed: Vec<char> = vec!['\n'];
    assert(feed@ =~= seq!['\n']);
    let mut out: Vec<char> = Vec::new();
    let mut i: usize = 0;
    assert(s.skip(0) =~= s);
    assert(Seq::<char>::empty() + clean_lines(s) =~= clean_lines(s));
    while i < n
        invariant
            s == v@,
            n == v.len(),
            i <= n,
            feed@ == seq!['\n'],
            cleaned == |l: Seq<char>| clean_line(l),
            clean_lines(s) == out@ + join_lines(lines(s.skip(i as int)).map_values(cleaned)),
        decreases n - i,
    {
        let ghost t = s.skip(i as int);
        proof {
            lemma_find(t, seq!['\n']);
        }
        match find_in(v, i, n, &feed) {
            None => {
                let (a, b) = clean_line_bounds(v, i, n);
                proof {
                    assert(lines(t) =~= seq![t]);
                    assert(lines(t).map_values(cleaned) =~= seq![clean_line(t)]);
                    let e = s.skip(n as int);
                    assert(lines(e) =~= Seq::<Seq<char>>::empty());
                    assert(lines(e).map_values(cleaned) =~= Seq::<Seq<char>>::empty());
                    assert(out@ + clean_line(t) + Seq::<char>::empty() =~= out@ + clean_line(t));
                }
                push_range(&mut out, v, a, b);
                i = n;
            },
            Some(feed_at) => {
                let end = if feed_at > i && v[feed_at - 1] == '\r' {
                    feed_at - 1
                } else {
                    feed_at
                };
                let (a, b) = clean_line_bounds(v, i, end);
                let ghost line = without_return(t.take(feed_at - i));
                let ghost rest = s.skip(feed_at + 1);
                let ghost before = out@;
                proof {
                    assert(t.take(feed_at - i) =~= v@.subrange(i as int, feed_at as int));
                    assert(line =~= v@.subrange(i as int, end as int));
                    assert(t.skip(feed_at - i + 1) =~= rest);
                    assert(lines(t) == seq![line] + lines(rest));
                    let tail = lines(rest).map_values(cleaned);
                    assert(lines(t).map_values(cleaned) =~= seq![clean_line(line)] + tail);
                    assert((seq![clean_line(line)] + tail).skip(1) =~= tail);
                    if rest.len() == 0 {
                        assert(tail =~= Seq::<Seq<char>>::empty());
                        assert(before + clean_line(line) + Seq::<char>::empty() =~= before
                            + clean_line(line));
                    } else {
                        lemma_find(rest, seq!['\n']);
                        assert(tail.len() > 0);
                        assert(before + (clean_line(line) + seq!['\n'] + join_lines(tail))
                            =~= (before + clean_line(line)).push('\n') + join_lines(tail));
                    }
                }
                push_range(&mut out, v, a, b);
                if feed_at + 1 < n {
                    out.push('\n');
                }
                i = feed_at + 1;
            },
        }
    }
    proof {
        let e = s.skip(n as int);
        assert(lines(e) =~= Seq::<Seq<char>>::empty());
        assert(lines(e).map_values(cleaned) =~= Seq::<Seq<char>>::empty());
        assert(out@ + Seq::<char>::empty() =~= out@);
    }
    out
}

/// The marker that names an image at `target`.
pub open spec fn image_marker(target: Seq<char>) -> Seq<char> {
    bracketed(AttachmentKind::Image.name() + seq![':'] + target)
}

/// Appends the marker that names the image at `v[lo..hi]` to `out`.
fn push_image_marker(out: &mut Vec<char>, v: &Vec<char>, lo: usize, hi: usize)
    requires
        lo <= hi <= v.len(),
    ensures
        final(out)@ == old(out)@ + image_marker(v@.subrange(lo as int, hi as int)),
{
    out.push('[');
    push_str(out, AttachmentKind::Image.marker_name());
    out.push(':');
    push_range(out, v, lo, hi);
    out.push(']');
    assert(out@ =~= old(out)@ + image_marker(v@.subrange(lo as int, hi as int)));
}

/// The markdown image at the start of `r`, where `r` begins with `![`: the
/// index of the first `](` and that of the first `)` after it.
pub open spec fn image_span(r: Seq<char>) -> Option<(int, int)> {
    match find(r, seq![']', '(']) {
        None => None,
        Some(mid) => match find(r.skip(mid + 2), seq![')']) {
            None => None,
            Some(rel) => Some((mid, mid + 2 + rel)),
        },
    }
}

/// What a markdown image with the alternative text `alt` and the address
/// `url` becomes; `whole` is the image as it was written. The prefix
/// `file://` is taken off the address first, and what is left is the path.
/// If the path is absolute, or if there is an alternative text, the image
/// becomes a marker for the path. Otherwise it stays.
pub open spec fn render_image(alt: Seq<char>, url: Seq<char>, whole: Seq<char>) -> Seq<char> {
    let scheme = seq!['f', 'i', 'l', 'e', ':', '/', '/'];
    let path = if starts_with(url, scheme) {
        url.skip(7)
    } else {
        url
    };
    if starts_with(path, seq!['/']) || alt.len() > 0 {
        image_marker(path)
    } else {
        whole
    }
}

/// `s` with its markdown images `![alt](url)` rendered. An image begins at
/// a `![`, its alternative text ends at the first `](` after that, and its
/// address at the first `)` after that. A `![` that begins no image stays.
pub open spec fn md_images(s: Seq<char>) -> Seq<char>
    decreases s.len(),
    via md_images_decreases
{
    match find(s, seq!['!', '[']) {
        None => s,
        Some(start) => {
            let r = s.skip(start);
            match image_span(r) {
                Some((mid, end)) => s.take(start) + render_image(
                    r.subrange(2, mid),
                    r.subrange(mid + 2, end),
                    r.take(end + 1),
                ) + md_images(r.skip(end + 1)),
                None => s.take(start + 2) + md_images(r.skip(2)),
            }
        },
    }
}

#[via_fn]
proof fn md_images_decreases(s: Seq<char>) {
    lemma_image_start(s);
}

/// Where `s` holds a `![`, what begins there is at least two characters
/// long; an image that begins there has its `](` after those two, and its
/// `)` after that.
pub proof fn lemma_image_start(s: Seq<char>)
    ensures
        match find(s, seq!['!', '[']) {
            None => true,
            Some(start) => 0 <= start && start + 2 <= s.len() && match image_span(s.skip(start)) {
                None => true,
                Some((mid, end)) => 2 <= mid && mid + 2 <= end && start + end < s.len(),
            },
        },
{
    lemma_find(s, seq!['!', '[']);
    match find(s, seq!['!', '[']) {
        None => {},
        Some(start) => {
            let r = s.skip(start);
            assert(s.subrange(start, start + 2)[0] == r[0]);
            assert(s.subrange(start, start + 2)[1] == r[1]);
            lemma_find(r, seq![']', '(']);
            match find(r, seq![']', '(']) {
                None => {},
                Some(mid) => {
                    assert(r.subrange(mid, mid + 2)[0] == r[mid]);
                    assert(r.subrange(mid, mid + 2)[1] == r[mid + 1]);
                    lemma_find(r.skip(mid + 2), seq![')']);
                },
            }
        },
    }
}

/// The markdown image that begins at `start` in `v`, as the indices of its
/// `](` and of its `)`.
fn find_image_span(v: &Vec<char>, start: usize) -> (span: Option<(usize, usize)>)
    requires
        start <= v.len(),
    ensures
        match span {
            Some((mid, end)) => start <= mid && mid + 2 <= end && end < v.len() && image_span(
                v@.skip(start as int),
            ) == Some((mid - start, end - start)),
            None => image_span(v@.skip(start as int)) is None,
        },
{
    let n = v.len();
    let ghost r = v@.skip(start as int);
    let middle: Vec<char> = vec![']', '('];
    let paren: Vec<char> = vec![')'];
    assert(middle@ =~= seq![']', '(']);
    assert(paren@ =~= seq![')']);
    assert(r =~= v@.subrange(start as int, n as int));
    match find_in(v, start, n, &middle) {
        None => None,
        Some(mid) => {
            assert(r.skip(mid - start + 2) =~= v@.subrange(mid + 2, n as int));
            match find_in(v, mid + 2, n, &paren) {
                None => None,
                Some(end) => Some((mid, end)),
            }
        },
    }
}

/// Appends to `out` what the markdown image `v[start..end + 1]` becomes;
/// its `](` is at `mid`.
fn push_rendered_image(out: &mut Vec<char>, v: &Vec<char>, start: usize, mid: usize, end: usize)
    requires
        start + 2 <= mid,
        mid + 2 <= end < v.len(),
    ensures
        final(out)@ == old(out)@ + render_image(
            v@.subrange(start + 2, mid as int),
            v@.subrange(mid + 2, end as int),
            v@.subrange(start as int, end + 1),
        ),
{
    let scheme: Vec<char> = vec!['f', 'i', 'l', 'e', ':', '/', '/'];
    assert(scheme@ =~= seq!['f', 'i', 'l', 'e', ':', '/', '/']);
    let ghost url = v@.subrange(mid + 2, end as int);
    let path_at = if end - (mid + 2) >= 7 && matches_at(v, mid + 2, &scheme) {
        assert(url.subrange(0, 7) =~= v@.subrange(mid + 2, mid + 2 + 7));
        mid + 2 + 7
    } else {
        proof {
            if url.len() >= 7 {
                assert(url.subrange(0, 7) =~= v@.subrange(mid + 2, mid + 2 + 7));
            }
        }
        mid + 2
    };
    let ghost path = v@.subrange(path_at as int, end as int);
    assert(path =~= if starts_with(url, scheme@) {
        url.skip(7)
    } else {
        url
    });
    proof {
        if path.len() >= 1 {
            assert(path.subrange(0, 1) =~= seq![path[0]]);
            assert(seq![path[0]][0] == path[0]);
        }
    }
    if (path_at < end && v[path_at] == '/') || start + 2 < mid {
        push_image_marker(out, v, path_at, end);
    } else {
        push_range(out, v, start, end + 1);
    }
}

/// Renders the markdown images of `v`.
pub(crate) fn render_md_images(v: &Vec<char>) -> (out: Vec<char>)
    ensures
        out@ == md_images(v@),
{
    let ghost s = v@;
    let n = v.len();
    let bang: Vec<char> = vec!['!', '['];
    assert(bang@ =~= seq!['!', '[']);
    let mut out: Vec<char> = Vec::new();
    let mut cursor: usize = 0;
    let mut done = false;
    assert(s.skip(0) =~= s);
    assert(Seq::<char>::empty() + md_images(s) =~= md_images(s));
    while !done
        invariant
            s == v@,
            n == v.len(),
            cursor <= n,
            bang@ == seq!['!', '['],
            !done ==> md_images(s) == out@ + md_images(s.skip(cursor as int)),
            done ==> md_images(s) == out@,
        decreases n - cursor + if done { 0int } else { 1int },
    {
        let ghost t = s.skip(cursor as int);
        let ghost before = out@;
        proof {
            lemma_image_start(t);
        }
        assert(t =~= v@.subrange(cursor as int, n as int));
        match find_in(v, cursor, n, &bang) {
            None => {
                push_range(&mut out, v, cursor, n);
                done = true;
            },
            Some(start) => {
                let ghost r = t.skip(start - cursor);
                assert(r =~= s.skip(start as int));
                match find_image_span(v, start) {
                    None => {
                        push_range(&mut out, v, cursor, start + 2);
                        assert(t.take(start - cursor + 2) =~= v@.subrange(cursor as int, start + 2));
                        assert(r.skip(2) =~= s.skip(start + 2));
                        assert(before + (t.take(start - cursor + 2) + md_images(s.skip(start + 2)))
                            =~= out@ + md_images(s.skip(start + 2)));
                        cursor = start + 2;
                    },
                    Some((mid, end)) => {
                        let ghost alt = r.subrange(2, mid - start);
                        let ghost url = r.subrange(mid - start + 2, end - start);
                        let ghost whole = r.take(end - start + 1);
                        assert(alt =~= v@.subrange(start + 2, mid as int));
                        assert(url =~= v@.subrange(mid + 2, end as int));
                        assert(whole =~= v@.subrange(start as int, end + 1));
                        assert(r.skip(end - start + 1) =~= s.skip(end + 1));
                        assert(t.take(start - cursor) =~= v@.subrange(cursor as int, start as int));
                        push_range(&mut out, v, cursor, start);
                        push_rendered_image(&mut out, v, start, mid, end);
                        assert(before + (t.take(start - cursor) + render_image(alt, url, whole)
                            + md_images(s.skip(end + 1))) =~= out@ + md_images(s.skip(end + 1)));
                        cursor = end + 1;
                    },
                }
            },
        }
    }
    out
}

/// Whether `p` ends like the name of an image file: with `.png`, `.jpg`,
/// `.jpeg`, `.gif`, `.webp` or `.bmp`, in any mix of ASCII case.
pub open spec fn has_image_extension(p: Seq<char>) -> bool {
    let l = ascii_lower(p);
    ||| ends_with(l, ".png"@)
    ||| ends_with(l, ".jpg"@)
    ||| ends_with(l, ".jpeg"@)
    ||| ends_with(l, ".gif"@)
    ||| ends_with(l, ".webp"@)
    ||| ends_with(l, ".bmp"@)
}

/// Whether `p` is an absolute path that names an image file.
pub open spec fn is_image_path(p: Seq<char>) -> bool {
    starts_with(p, seq!['/']) && has_image_extension(p)
}

/// Whether `l` ends with `ext`.
fn ends_like(l: &Vec<char>, ext: &str) -> (b: bool)
    ensures
        b == ends_with(l@, ext@),
{
    let e = chars_of(ext);
    if e.len() > l.len() {
        return false;
    }
    matches_at(l, l.len() - e.len(), &e)
}

/// Whether `v[lo..hi]` is an absolute path that names an image file.
fn names_image(v: &Vec<char>, lo: usize, hi: usize) -> (b: bool)
    requires
        lo <= hi <= v.len(),
    ensures
        b == is_image_path(v@.subrange(lo as int, hi as int)),
{
    let ghost p = v@.subrange(lo as int, hi as int);
    proof {
        if p.len() >= 1 {
            assert(p.subrange(0, 1) =~= seq![p[0]]);
            assert(seq![p[0]][0] == p[0]);
        }
    }
    if !(lo < hi && v[lo] == '/') {
        return false;
    }
    let l = lower_range(v, lo, hi);
    ends_like(&l, ".png") || ends_like(&l, ".jpg") || ends_like(&l, ".jpeg") || ends_like(
        &l,
        ".gif",
    ) || ends_like(&l, ".webp") || ends_like(&l, ".bmp")
}

/// What a word of the text `whole` becomes: punctuation at its ends is set
/// aside, and if what is left is an absolute path that names an image file,
/// and `whole` does not hold the marker for that path already, the path is
/// put into a marker, between the punctuation as it was. Any other word
/// stays.
pub open spec fn wrap_word(w: Seq<char>, whole: Seq<char>) -> Seq<char> {
    let lead = leading(w, CharClass::Punctuation) as int;
    let path = strip(w, CharClass::Punctuation);
    if is_image_path(path) && !contains(whole, image_marker(path)) {
        w.take(lead) + image_marker(path) + w.skip(lead + path.len())
    } else {
        w
    }
}

/// `s`, a part of the text `whole`, with its words wrapped. Words are the
/// runs of characters between white space; the white space stays as it is.
pub open spec fn wrap_words(s: Seq<char>, whole: Seq<char>) -> Seq<char>
    decreases s.len(),
    via wrap_words_decreases
{
    if s.len() == 0 {
        s
    } else {
        let gap = leading(s, CharClass::Space) as int;
        if gap > 0 {
            s.take(gap) + wrap_words(s.skip(gap), whole)
        } else {
            let n = leading(s, CharClass::NonSpace) as int;
            wrap_word(s.take(n), whole) + wrap_words(s.skip(n), whole)
        }
    }
}

#[via_fn]
proof fn wrap_words_decreases(s: Seq<char>, whole: Seq<char>) {
    lemma_leading(s, CharClass::Space);
    lemma_leading(s, CharClass::NonSpace);
}

/// `s` with every word that is a bare image path wrapped into a marker,
/// unless `s` holds the marker for that path already.
pub open spec fn wrap_paths(s: Seq<char>) -> Seq<char> {
    wrap_words(s, s)
}

/// Appends to `out` what the word `v[lo..hi]` of the text `v` becomes.
fn push_wrapped_word(out: &mut Vec<char>, v: &Vec<char>, lo: usize, hi: usize)
    requires
        lo <= hi <= v.len(),
    ensures
        final(out)@ == old(out)@ + wrap_word(v@.subrange(lo as int, hi as int), v@),
{
    let ghost w = v@.subrange(lo as int, hi as int);
    let (a, b) = strip_bounds(v, lo, hi, CharClass::Punctuation);
    if names_image(v, a, b) {
        let mut marker: Vec<char> = Vec::new();
        push_image_marker(&mut marker, v, a, b);
        assert(v@.subrange(0, v.len() as int) =~= v@);
        if find_in(v, 0, v.len(), &marker).is_none() {
            push_range(out, v, lo, a);
            push_range(out, &marker, 0, marker.len());
            push_range(out, v, b, hi);
            assert(marker@.subrange(0, marker.len() as int) =~= marker@);
            assert(w.take(a - lo) =~= v@.subrange(lo as int, a as int));
            assert(w.skip(a - lo + (b - a)) =~= v@.subrange(b as int, hi as int));
            return ;
        }
    }
    push_range(out, v, lo, hi);
}

/// Wraps the bare image paths of `v` into markers.
pub(crate) fn wrap_bare_paths(v: &Vec<char>) -> (out: Vec<char>)
    ensures
        out@ == wrap_paths(v@),
{
    let ghost s = v@;
    let n = v.len();
    let mut out: Vec<char> = Vec::new();
    let mut i: usize = 0;
    assert(s.skip(0) =~= s);
    assert(Seq::<char>::empty() + wrap_paths(s) =~= wrap_paths(s));
    while i < n
        invariant
            s == v@,
            n == v.len(),
            i <= n,
            wrap_paths(s) == out@ + wrap_words(s.skip(i as int), s),
        decreases n - i,
    {
        let ghost t = s.skip(i as int);
        let ghost before = out@;
        proof {
            lemma_leading(t, CharClass::Space);
            lemma_leading(t, CharClass::NonSpace);
        }
        assert(t =~= v@.subrange(i as int, n as int));
        let gap_end = skip_leading(v, i, n, CharClass::Space);
        let end = if gap_end > i {
            push_range(&mut out, v, i, gap_end);
            gap_end
        } else {
            let word_end = skip_leading(v, i, n, CharClass::NonSpace);
            push_wrapped_word(&mut out, v, i, word_end);
            word_end
        };
        proof {
            let head = t.take(end - i);
            let rest = wrap_words(s.skip(end as int), s);
            assert(head =~= v@.subrange(i as int, end as int));
            assert(t.skip(end - i) =~= s.skip(end as int));
            if gap_end > i {
                assert(wrap_words(t, s) == head + rest);
                assert(before + (head + rest) =~= out@ + rest);
            } else {
                assert(wrap_words(t, s) == wrap_word(head, s) + rest);
                assert(before + (wrap_word(head, s) + rest) =~= out@ + rest);
            }
        }
        i = end;
    }
    assert(out@ + wrap_words(s.skip(n as int), s) =~= out@);
    out
}

/// An image marker is its target between `[IMAGE:` and `]`.
pub proof fn lemma_image_marker_shape(target: Seq<char>)
    ensures
        image_marker(target) =~= seq!['[', 'I', 'M', 'A', 'G', 'E', ':'] + target + seq![']'],
{
    reveal_strlit("IMAGE");
}

/// The marker made for an image is read back as one image attachment with
/// the trimmed target, provided the target holds no `]` and is not blank.
pub proof fn lemma_image_marker_is_read(target: Seq<char>)
    requires
        forall|i: int| 0 <= i < target.len() ==> target[i] != ']',
        trim(target).len() > 0,
    ensures
        scan(image_marker(target)) == (Scan {
            text: Seq::empty(),
            markers: seq![Marker { kind: AttachmentKind::Image, target: trim(target) }],
        }),
{
    let nothing = Seq::<char>::empty();
    let name = AttachmentKind::Image.name();
    reveal_strlit("IMAGE");
    lemma_name_round_trip(AttachmentKind::Image);
    lemma_find_char(nothing, '[');
    assert(closed(nothing));
    assert(scan(nothing) == Scan { text: nothing, markers: Seq::empty() });
    lemma_marker_taken(nothing, name, target, nothing);
    let m = Marker { kind: AttachmentKind::Image, target: trim(target) };
    assert(nothing + image_marker(target) + nothing =~= image_marker(target));
    assert(scan(image_marker(target)).text =~= nothing);
    assert(scan(image_marker(target)).markers =~= seq![m]);
}

/// Whether `p` has the shape of a path that was taken out of a word: it
/// begins with `/`, holds no white space, and ends with a character that
/// may end a path.
pub open spec fn is_bare_path(p: Seq<char>) -> bool {
    &&& p.len() > 0
    &&& p[0] == '/'
    &&& !CharClass::Punctuation.has(p.last())
    &&& forall|i: int| 0 <= i < p.len() ==> !is_space(p[i])
}

/// What is left of a word without white space, where it is an image path,
/// has the shape of a bare path.
pub proof fn lemma_path_of_word(w: Seq<char>)
    requires
        forall|i: int| 0 <= i < w.len() ==> !is_space(w[i]),
        is_image_path(strip(w, CharClass::Punctuation)),
    ensures
        is_bare_path(strip(w, CharClass::Punctuation)),
{
    let punct = CharClass::Punctuation;
    let u = strip_start(w, punct);
    let p = strip(w, punct);
    lemma_leading(w, punct);
    lemma_trailing(u, punct);
    assert(p.subrange(0, 1)[0] == '/');
    assert(p.last() == u[u.len() - trailing(u, punct) - 1]);
    assert forall|i: int| 0 <= i < p.len() implies !is_space(p[i]) by {
        assert(p[i] == w[leading(w, punct) + i]);
    }
}

/// A word that holds no white space stays one after wrapping, and what is
/// left of a word that was wrapped is no longer an image path.
pub proof fn lemma_wrap_word(w: Seq<char>, whole: Seq<char>)
    requires
        w.len() > 0,
        forall|i: int| 0 <= i < w.len() ==> !is_space(w[i]),
    ensures
        wrap_word(w, whole).len() > 0,
        forall|i: int| 0 <= i < wrap_word(w, whole).len() ==> !is_space(wrap_word(w, whole)[i]),
        wrap_word(w, whole) != w ==> !is_image_path(
            strip(wrap_word(w, whole), CharClass::Punctuation),
        ),
{
    let punct = CharClass::Punctuation;
    let lead = leading(w, punct) as int;
    let path = strip(w, punct);
    lemma_leading(w, punct);
    lemma_trailing(strip_start(w, punct), punct);
    if is_image_path(path) && !contains(whole, image_marker(path)) {
        let m = image_marker(path);
        lemma_image_marker_shape(path);
        let x = w.take(lead) + m + w.skip(lead + path.len());
        assert(wrap_word(w, whole) == x);
        assert forall|i: int| 0 <= i < path.len() implies path[i] == w[lead + i] by {}
        assert forall|i: int| 0 <= i < x.len() implies !is_space(x[i]) by {
            if i < lead {
                assert(x[i] == w[i]);
            } else if i < lead + 7 {
            } else if i < lead + 7 + path.len() {
                assert(x[i] == path[i - lead - 7]);
            } else if i == lead + 7 + path.len() {
            } else {
                assert(x[i] == w[i - 8]);
            }
        }
        assert forall|i: int| 0 <= i < lead + 1 implies punct.has(#[trigger] x[i]) by {
            if i < lead {
                assert(x[i] == w[i]);
            } else {
                assert(x[i] == '[');
            }
        }
        assert(x[lead + 1] == 'I');
        lemma_leading_is(x, punct, lead + 1);
        let u = strip_start(x, punct);
        assert(u[0] == 'I');
        lemma_trailing(u, punct);
        let again = strip(x, punct);
        assert(again.len() > 0);
        assert(again[0] == 'I');
        assert(!starts_with(again, seq!['/'])) by {
            if starts_with(again, seq!['/']) {
                assert(again.subrange(0, 1)[0] == '/');
            }
        }
    }
}

/// Wrapped text begins with white space exactly where the text did.
pub proof fn lemma_wrap_head(s: Seq<char>, whole: Seq<char>)
    requires
        s.len() > 0,
    ensures
        wrap_words(s, whole).len() > 0,
        is_space(wrap_words(s, whole)[0]) == is_space(s[0]),
{
    lemma_leading(s, CharClass::Space);
    lemma_leading(s, CharClass::NonSpace);
    let gap = leading(s, CharClass::Space) as int;
    if gap == 0 {
        let n = leading(s, CharClass::NonSpace) as int;
        let w = s.take(n);
        assert forall|i: int| 0 <= i < w.len() implies !is_space(w[i]) by {
            assert(CharClass::NonSpace.has(s[i]));
        }
        lemma_wrap_word(w, whole);
    } else {
        assert(CharClass::Space.has(s[0]));
    }
}

/// A marker for a bare path that stands in a word stands in the wrapped
/// word too.
pub proof fn lemma_marker_stays_in_word(w: Seq<char>, whole: Seq<char>, p: Seq<char>, k: int)
    requires
        is_bare_path(p),
        occurs_at(w, image_marker(p), k),
    ensures
        contains(wrap_word(w, whole), image_marker(p)),
{
    let punct = CharClass::Punctuation;
    let m = image_marker(p);
    let lead = leading(w, punct) as int;
    let u = strip_start(w, punct);
    let c = strip(w, punct);
    let x = wrap_word(w, whole);
    lemma_image_marker_shape(p);
    if x == w {
        lemma_occurrence_is_found(w, m, k);
    } else {
        let big = image_marker(c);
        lemma_image_marker_shape(c);
        lemma_leading(w, punct);
        lemma_trailing(u, punct);
        assert(c.subrange(0, 1)[0] == '/');
        assert forall|j: int| 0 <= j < m.len() implies m[j] == w[k + j] by {
            assert(w.subrange(k, k + m.len())[j] == w[k + j]);
        }
        assert forall|i: int| 0 <= i < c.len() implies c[i] == w[lead + i] by {}
        assert forall|i: int| lead + c.len() <= i < w.len() implies punct.has(w[i]) by {
            assert(w[i] == u[i - lead]);
        }
        // The letter after the bracket stands inside the path of the word.
        assert(m[1] == 'I');
        assert(w[k + 1] == 'I');
        assert(!punct.has('I'));
        if k + 1 < lead {
            assert(punct.has(w[k + 1]));
        }
        if k + 1 == lead {
            assert(w[lead] == c[0]);
        }
        assert(lead <= k);
        // The end of the path stands inside the path of the word as well.
        let last = m.len() - 2;
        assert(m[last] == p.last());
        assert(w[k + last] == p.last());
        if k + last >= lead + c.len() {
            assert(punct.has(w[k + last]));
        }
        assert(k + m.len() <= lead + c.len() + 1);
        assert forall|j: int| 0 <= j < m.len() implies x[k + 7 + j] == m[j] by {
            let i = k - lead + j;
            if i < c.len() {
                assert(x[lead + 7 + i] == big[7 + i]);
                assert(big[7 + i] == c[i]);
            } else {
                assert(x[lead + 7 + i] == big[7 + c.len() as int]);
            }
        }
        assert(x.subrange(k + 7, k + 7 + m.len()) =~= m);
        lemma_occurrence_is_found(x, m, k + 7);
    }
}

/// A marker for a bare path that stands in a part of the text stands in the
/// wrapped part too.
pub proof fn lemma_marker_stays(t: Seq<char>, whole: Seq<char>, p: Seq<char>, k: int)
    requires
        is_bare_path(p),
        occurs_at(t, image_marker(p), k),
    ensures
        contains(wrap_words(t, whole), image_marker(p)),
    decreases t.len(),
{
    let m = image_marker(p);
    let nothing = Seq::<char>::empty();
    lemma_image_marker_shape(p);
    lemma_leading(t, CharClass::Space);
    lemma_leading(t, CharClass::NonSpace);
    assert forall|j: int| 0 <= j < m.len() implies m[j] == t[k + j] && !is_space(m[j]) by {
        assert(t.subrange(k, k + m.len())[j] == t[k + j]);
        if 7 <= j < 7 + p.len() {
            assert(m[j] == p[j - 7]);
        }
    }
    assert(m[0] == t[k]);
    let gap = leading(t, CharClass::Space) as int;
    if gap > 0 {
        let rest = t.skip(gap);
        if k < gap {
            assert(CharClass::Space.has(t[k]));
        }
        lemma_occurs_at_skip(t, m, k, gap);
        lemma_marker_stays(rest, whole, p, k - gap);
        let y = wrap_words(rest, whole);
        lemma_find(y, m);
        lemma_occurs_inside(t.take(gap), y, nothing, m, find(y, m)->0);
        assert(t.take(gap) + y + nothing =~= wrap_words(t, whole));
        lemma_occurrence_is_found(wrap_words(t, whole), m, gap + find(y, m)->0);
    } else {
        let n = leading(t, CharClass::NonSpace) as int;
        let w = t.take(n);
        let rest = t.skip(n);
        let x = wrap_word(w, whole);
        let y = wrap_words(rest, whole);
        assert(wrap_words(t, whole) == x + y);
        if k < n {
            if k + m.len() > n {
                assert(m[n - k] == t[n]);
                assert(!CharClass::NonSpace.has(t[n]));
            }
            assert(w.subrange(k, k + m.len()) =~= t.subrange(k, k + m.len()));
            lemma_marker_stays_in_word(w, whole, p, k);
            lemma_find(x, m);
            lemma_occurs_inside(nothing, x, y, m, find(x, m)->0);
            assert(nothing + x + y =~= x + y);
            lemma_occurrence_is_found(x + y, m, find(x, m)->0);
        } else {
            lemma_occurs_at_skip(t, m, k, n);
            lemma_marker_stays(rest, whole, p, k - n);
            lemma_find(y, m);
            lemma_occurs_inside(x, y, nothing, m, find(y, m)->0);
            assert(x + y + nothing =~= x + y);
            lemma_occurrence_is_found(x + y, m, x.len() + find(y, m)->0);
        }
    }
}

/// A bare path whose marker the text holds already has it in the wrapped
/// text too.
pub proof fn lemma_wrapped_paths_stay_wrapped(s: Seq<char>, p: Seq<char>)
    requires
        is_bare_path(p),
        contains(s, image_marker(p)),
    ensures
        contains(wrap_paths(s), image_marker(p)),
{
    lemma_find(s, image_marker(p));
    lemma_marker_stays(s, s, p, find(s, image_marker(p))->0);
}

/// Wrapping the words of a wrapped part of the text again, now as words of
/// the wrapped text, changes nothing.
pub proof fn lemma_wrap_words_again(t: Seq<char>, s: Seq<char>)
    ensures
        wrap_words(wrap_words(t, s), wrap_paths(s)) == wrap_words(t, s),
    decreases t.len(),
{
    let space = CharClass::Space;
    let word = CharClass::NonSpace;
    let punct = CharClass::Punctuation;
    let again = wrap_paths(s);
    if t.len() > 0 {
        lemma_leading(t, space);
        lemma_leading(t, word);
        let gap = leading(t, space) as int;
        if gap > 0 {
            let g = t.take(gap);
            let r = t.skip(gap);
            let y = wrap_words(r, s);
            let x = g + y;
            assert(wrap_words(t, s) == x);
            lemma_wrap_words_again(r, s);
            assert forall|i: int| 0 <= i < gap implies space.has(#[trigger] x[i]) by {
                assert(x[i] == t[i]);
                assert(space.has(t[i]));
            }
            if gap < x.len() {
                lemma_wrap_head(r, s);
                assert(x[gap] == y[0]);
                assert(r[0] == t[gap]);
            }
            lemma_leading_is(x, space, gap);
            assert(x.take(gap) =~= g);
            assert(x.skip(gap) =~= y);
        } else {
            let n = leading(t, word) as int;
            let w = t.take(n);
            let r = t.skip(n);
            let ww = wrap_word(w, s);
            let y = wrap_words(r, s);
            let x = ww + y;
            assert(wrap_words(t, s) == x);
            assert forall|i: int| 0 <= i < w.len() implies !is_space(w[i]) by {
                assert(word.has(t[i]));
            }
            lemma_wrap_word(w, s);
            lemma_wrap_words_again(r, s);
            assert(wrap_word(ww, again) == ww) by {
                let p = strip(w, punct);
                if ww == w && is_image_path(p) {
                    if !contains(s, image_marker(p)) {
                        lemma_image_marker_shape(p);
                        lemma_leading(w, punct);
                        lemma_trailing(strip_start(w, punct), punct);
                        assert(ww.len() == w.len() + 8);
                    }
                    lemma_path_of_word(w);
                    lemma_wrapped_paths_stay_wrapped(s, p);
                }
            }
            assert(x[0] == ww[0]);
            lemma_leading_is(x, space, 0);
            assert forall|i: int| 0 <= i < ww.len() implies word.has(#[trigger] x[i]) by {
                assert(x[i] == ww[i]);
            }
            if ww.len() < x.len() {
                lemma_wrap_head(r, s);
                assert(x[ww.len() as int] == y[0]);
                assert(r[0] == t[n]);
            }
            lemma_leading_is(x, word, ww.len() as int);
            assert(x.take(ww.len() as int) =~= ww);
            assert(x.skip(ww.len() as int) =~= y);
        }
    }
}

/// Wrapping bare image paths a second time changes nothing: a path that is
/// inside a marker is not wrapped again, and a path that was left bare
/// because the text holds its marker is left bare again.
pub proof fn lemma_wrap_paths_idempotent(s: Seq<char>)
    ensures
        wrap_paths(wrap_paths(s)) == wrap_paths(s),
{
    lemma_wrap_words_again(s, s);
}

/// Removes the terminal control sequences from `s`.
pub fn strip_control_sequences(s: &str) -> (out: String)
    ensures
        out@ == strip_control(s@),
{
    let v = chars_of(s);
    let w = strip_control_chars(&v);
    assert(w@.subrange(0, w.len() as int) =~= w@);
    string_of(&w, 0, w.len())
}

/// Cleans every line of `s` and joins the lines again.
pub fn clean_output_lines(s: &str) -> (out: String)
    ensures
        out@ == clean_lines(s@),
{
    let v = chars_of(s);
    let w = clean_line_artifacts(&v);
    assert(w@.subrange(0, w.len() as int) =~= w@);
    string_of(&w, 0, w.len())
}

/// Text without an escape character holds no control sequence and stays as
/// it is.
pub proof fn lemma_strip_control_plain(s: Seq<char>)
    requires
        forall|i: int| 0 <= i < s.len() ==> s[i] != ESCAPE,
    ensures
        strip_control(s) == s,
    decreases s.len(),
{
    if s.len() > 0 {
        let t = s.skip(1);
        assert forall|i: int| 0 <= i < t.len() implies t[i] != ESCAPE by {
            assert(t[i] == s[i + 1]);
        }
        lemma_strip_control_plain(t);
        assert(seq![s[0]] + t =~= s);
    }
}

/// What cleaned output is: control sequences removed, every line cleaned,
/// the whole trimmed, markdown images rendered, and bare image paths
/// wrapped, in that order.
pub open spec fn sanitized(raw: Seq<char>) -> Seq<char> {
    wrap_paths(md_images(trim(clean_lines(strip_control(raw)))))
}

/// Wraps the bare image paths of `s` into `[IMAGE:path]` markers.
pub fn detect_bare_image_paths(s: &str) -> (out: String)
    ensures
        out@ == wrap_paths(s@),
{
    let v = chars_of(s);
    let w = wrap_bare_paths(&v);
    assert(w@.subrange(0, w.len() as int) =~= w@);
    string_of(&w, 0, w.len())
}

/// Turns the markdown images of `s` into `[IMAGE:path]` markers, and then
/// wraps the bare image paths of the result.
pub fn convert_md_images(s: &str) -> (out: String)
    ensures
        out@ == wrap_paths(md_images(s@)),
{
    let v = chars_of(s);
    let m = render_md_images(&v);
    let w = wrap_bare_paths(&m);
    assert(w@.subrange(0, w.len() as int) =~= w@);
    string_of(&w, 0, w.len())
}

/// Cleans the raw output of the agent.
pub fn strip_ansi_and_artifacts(s: &str) -> (out: String)
    ensures
        out@ == sanitized(s@),
{
    let v = chars_of(s);
    let plain = strip_control_chars(&v);
    let lined = clean_line_artifacts(&plain);
    let (a, b) = strip_bounds(&lined, 0, lined.len(), CharClass::Space);
    assert(lined@.subrange(0, lined.len() as int) =~= lined@);
    let mut trimmed: Vec<char> = Vec::new();
    push_range(&mut trimmed, &lined, a, b);
    assert(trimmed@ =~= trim(lined@));
    let m = render_md_images(&trimmed);
    let w = wrap_bare_paths(&m);
    assert(w@.subrange(0, w.len() as int) =~= w@);
    string_of(&w, 0, w.len())
}

/// Whether `text` says, in any mix of ASCII case, that the context window
/// of the agent has overflowed.
pub open spec fn reports_overflow(text: Seq<char>) -> bool {
    contains(ascii_lower(text), "context window has overflowed"@)
}

/// Whether `text` reports a context overflow.
pub fn reports_context_overflow(text: &str) -> (b: bool)
    ensures
        b == reports_overflow(text@),
{
    let v = chars_of(text);
    let l = lower_range(&v, 0, v.len());
    assert(v@.subrange(0, v.len() as int) =~= v@);
    assert(l@.subrange(0, l.len() as int) =~= l@);
    let needle = chars_of("context window has overflowed");
    find_in(&l, 0, l.len(), &needle).is_some()
}

} // verus!
