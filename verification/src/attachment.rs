//! Attachment markers: bracketed `[KIND:target]` spans inside message text.
//!
//! A marker is closed by the first `]` after its `[`; a target therefore
//! cannot hold a `]`.

use crate::text::{
    ascii_upper, chars_of, find, find_in, leading, lemma_find_char, lemma_find_char_after,
    lemma_find_in_prefix, lemma_leading, lemma_leading_is, lemma_trailing, lemma_trailing_is,
    matches_at, push_range, same_chars, starts_with, string_of, strip_bounds, strip_start,
    trailing, trim, upper_range, CharClass,
};
use vstd::prelude::*;

verus! {

/// The kinds of attachment that a marker can name.
#[derive(Debug, Clone, Copy, PartialEq, Eq, Structural)]
pub enum AttachmentKind {
    Image,
    Document,
    Video,
    Audio,
    Voice,
}

impl AttachmentKind {
    /// The canonical marker name of the kind.
    pub open spec fn name(self) -> Seq<char> {
        match self {
            AttachmentKind::Image => "IMAGE"@,
            AttachmentKind::Document => "DOCUMENT"@,
            AttachmentKind::Video => "VIDEO"@,
            AttachmentKind::Audio => "AUDIO"@,
            AttachmentKind::Voice => "VOICE"@,
        }
    }

    /// The kind that a marker name stands for: the name is trimmed and
    /// compared without regard to ASCII case; `PHOTO` and `FILE` are
    /// accepted for `IMAGE` and `DOCUMENT`.
    pub open spec fn of_name(marker: Seq<char>) -> Option<AttachmentKind> {
        let word = ascii_upper(trim(marker));
        if word == "IMAGE"@ || word == "PHOTO"@ {
            Some(AttachmentKind::Image)
        } else if word == "DOCUMENT"@ || word == "FILE"@ {
            Some(AttachmentKind::Document)
        } else if word == "VIDEO"@ {
            Some(AttachmentKind::Video)
        } else if word == "AUDIO"@ {
            Some(AttachmentKind::Audio)
        } else if word == "VOICE"@ {
            Some(AttachmentKind::Voice)
        } else {
            None
        }
    }

    /// The kind named by the characters `v[lo..hi]`.
    pub(crate) fn from_chars(v: &Vec<char>, lo: usize, hi: usize) -> (kind: Option<AttachmentKind>)
        requires
            lo <= hi <= v.len(),
        ensures
            kind == Self::of_name(v@.subrange(lo as int, hi as int)),
    {
        let (a, b) = strip_bounds(v, lo, hi, CharClass::Space);
        let word = upper_range(v, a, b);
        if same_chars(&word, &chars_of("IMAGE")) || same_chars(&word, &chars_of("PHOTO")) {
            Some(AttachmentKind::Image)
        } else if same_chars(&word, &chars_of("DOCUMENT")) || same_chars(
            &word,
            &chars_of("FILE"),
        ) {
            Some(AttachmentKind::Document)
        } else if same_chars(&word, &chars_of("VIDEO")) {
            Some(AttachmentKind::Video)
        } else if same_chars(&word, &chars_of("AUDIO")) {
            Some(AttachmentKind::Audio)
        } else if same_chars(&word, &chars_of("VOICE")) {
            Some(AttachmentKind::Voice)
        } else {
            None
        }
    }

    /// The kind that `marker` names, if it names one.
    pub fn from_marker(marker: &str) -> (kind: Option<AttachmentKind>)
        ensures
            kind == Self::of_name(marker@),
    {
        let v = chars_of(marker);
        assert(v@.subrange(0, v.len() as int) =~= marker@);
        Self::from_chars(&v, 0, v.len())
    }

    /// The canonical marker name of the kind.
    pub fn marker_name(&self) -> (name: &'static str)
        ensures
            name@ == self.name(),
    {
        match self {
            AttachmentKind::Image => "IMAGE",
            AttachmentKind::Document => "DOCUMENT",
            AttachmentKind::Video => "VIDEO",
            AttachmentKind::Audio => "AUDIO",
            AttachmentKind::Voice => "VOICE",
        }
    }
}

/// What a marker says: a kind and a target.
pub ghost struct Marker {
    pub kind: AttachmentKind,
    pub target: Seq<char>,
}

/// An attachment taken out of message text.
#[derive(Debug, Clone)]
pub struct Attachment {
    pub kind: AttachmentKind,
    pub target: String,
}

impl View for Attachment {
    type V = Marker;

    open spec fn view(&self) -> Marker {
        Marker { kind: self.kind, target: self.target@ }
    }
}

impl DeepView for Attachment {
    type V = Marker;

    open spec fn deep_view(&self) -> Marker {
        self@
    }
}

impl Attachment {
    /// An attachment has a target that is not empty.
    pub open spec fn well_formed(&self) -> bool {
        self.target@.len() > 0
    }
}

/// Where a target lives.
#[derive(Debug, Clone, Copy, PartialEq, Eq, Structural)]
pub enum TargetLocation {
    /// A path on the local file system.
    Local,
    /// A resource behind an `http://` or `https://` address.
    Remote,
}

/// Whether `target` begins with `http://` or `https://`, written exactly so.
pub open spec fn is_remote(target: Seq<char>) -> bool {
    starts_with(target, "http://"@) || starts_with(target, "https://"@)
}

/// Classifies a target by its scheme prefix alone; nothing is resolved.
pub fn classify(target: &str) -> (location: TargetLocation)
    ensures
        location == if is_remote(target@) {
            TargetLocation::Remote
        } else {
            TargetLocation::Local
        },
{
    let v = chars_of(target);
    if matches_at(&v, 0, &chars_of("http://")) || matches_at(&v, 0, &chars_of("https://")) {
        TargetLocation::Remote
    } else {
        TargetLocation::Local
    }
}

/// Whether `target` is a local path and not a web address.
pub fn is_local_path(target: &str) -> (local: bool)
    ensures
        local == !is_remote(target@),
{
    classify(target) == TargetLocation::Local
}

/// What stands between two brackets, read as a marker: a recognized kind
/// name, the first colon, and a target that is not empty once trimmed.
pub open spec fn read_marker(inner: Seq<char>) -> Option<Marker> {
    match find(inner, seq![':']) {
        None => None,
        Some(colon) => match AttachmentKind::of_name(inner.take(colon)) {
            None => None,
            Some(kind) => {
                let target = trim(inner.skip(colon + 1));
                if target.len() > 0 {
                    Some(Marker { kind, target })
                } else {
                    None
                }
            },
        },
    }
}

/// The outcome of a scan: the text that stays and the markers found.
pub ghost struct Scan {
    pub text: Seq<char>,
    pub markers: Seq<Marker>,
}

/// One scan after another.
pub open spec fn join_scans(a: Scan, b: Scan) -> Scan {
    Scan { text: a.text + b.text, markers: a.markers + b.markers }
}

/// The first bracketed span of `s`, as the indices of its `[` and its `]`.
pub open spec fn first_span(s: Seq<char>) -> Option<(int, int)> {
    match find(s, seq!['[']) {
        None => None,
        Some(open) => match find(s.skip(open), seq![']']) {
            None => None,
            Some(rel) => Some((open, open + rel)),
        },
    }
}

/// The scan of `s` from left to right. Text outside bracketed spans stays.
/// A span that reads as a marker leaves the text and joins the markers; any
/// other span stays as it is. A `[` that is never closed ends the scan: it
/// and all that follows stay.
pub open spec fn scan(s: Seq<char>) -> Scan
    decreases s.len(),
    via scan_decreases
{
    match first_span(s) {
        None => Scan { text: s, markers: Seq::empty() },
        Some((open, close)) => {
            let rest = scan(s.skip(close + 1));
            match read_marker(s.subrange(open + 1, close)) {
                Some(m) => Scan { text: s.take(open) + rest.text, markers: seq![m] + rest.markers },
                None => Scan { text: s.take(close + 1) + rest.text, markers: rest.markers },
            }
        },
    }
}

#[via_fn]
proof fn scan_decreases(s: Seq<char>) {
    lemma_first_span(s);
}

/// The first span lies inside `s`, its `[` before its `]`, with no `[`
/// before it and no `]` inside it.
pub proof fn lemma_first_span(s: Seq<char>)
    ensures
        match first_span(s) {
            Some((open, close)) => {
                &&& 0 <= open < close < s.len()
                &&& s[open] == '['
                &&& s[close] == ']'
                &&& forall|j: int| 0 <= j < open ==> s[j] != '['
                &&& forall|j: int| open <= j < close ==> s[j] != ']'
            },
            None => true,
        },
{
    lemma_find_char(s, '[');
    match find(s, seq!['[']) {
        None => {},
        Some(open) => {
            let t = s.skip(open);
            lemma_find_char(t, ']');
            match find(t, seq![']']) {
                None => {},
                Some(rel) => {
                    assert(t[rel] == s[open + rel]);
                    assert forall|j: int| open <= j < open + rel implies s[j] != ']' by {
                        assert(t[j - open] == s[j]);
                    }
                },
            }
        },
    }
}

/// Reads the characters `v[lo..hi]`, the inside of a bracketed span, as a
/// marker.
fn read_span(v: &Vec<char>, lo: usize, hi: usize) -> (r: Option<Attachment>)
    requires
        lo <= hi <= v.len(),
    ensures
        match r {
            Some(a) => read_marker(v@.subrange(lo as int, hi as int)) == Some(a@)
                && a.well_formed(),
            None => read_marker(v@.subrange(lo as int, hi as int)) is None,
        },
{
    let ghost inner = v@.subrange(lo as int, hi as int);
    let colon_pat: Vec<char> = vec![':'];
    assert(colon_pat@ =~= seq![':']);
    match find_in(v, lo, hi, &colon_pat) {
        None => None,
        Some(colon) => {
            assert(inner.take(colon - lo) =~= v@.subrange(lo as int, colon as int));
            assert(inner.skip(colon - lo + 1) =~= v@.subrange(colon + 1, hi as int));
            match AttachmentKind::from_chars(v, lo, colon) {
                None => None,
                Some(kind) => {
                    let (a, b) = strip_bounds(v, colon + 1, hi, CharClass::Space);
                    if a < b {
                        Some(Attachment { kind, target: string_of(v, a, b) })
                    } else {
                        None
                    }
                },
            }
        },
    }
}

/// Takes the attachment markers out of `message`.
///
/// Returns the text that stays, trimmed, and the attachments in the order
/// in which their markers stand in `message`.
pub fn parse_attachment_markers(message: &str) -> (out: (String, Vec<Attachment>))
    ensures
        out.0@ == trim(scan(message@).text),
        out.1.deep_view() == scan(message@).markers,
        forall|i: int| 0 <= i < out.1.len() ==> (#[trigger] out.1[i]).well_formed(),
        (forall|i: int| 0 <= i < message@.len() ==> message@[i] != '[') ==> out.0@ == trim(
            message@,
        ) && out.1.len() == 0,
{
    let v = chars_of(message);
    let ghost s = v@;
    let n = v.len();
    let open_pat: Vec<char> = vec!['['];
    let close_pat: Vec<char> = vec![']'];
    assert(open_pat@ =~= seq!['[']);
    assert(close_pat@ =~= seq![']']);
    let mut cleaned: Vec<char> = Vec::new();
    let mut attachments: Vec<Attachment> = Vec::new();
    let mut cursor: usize = 0;
    let mut done = false;
    assert(s.skip(0) =~= s);
    assert(attachments.deep_view() =~= Seq::<Marker>::empty());
    while !done
        invariant
            s == v@,
            n == v.len(),
            cursor <= n,
            open_pat@ == seq!['['],
            close_pat@ == seq![']'],
            !done ==> scan(s) == join_scans(
                Scan { text: cleaned@, markers: attachments.deep_view() },
                scan(s.skip(cursor as int)),
            ),
            done ==> scan(s) == (Scan { text: cleaned@, markers: attachments.deep_view() }),
            forall|i: int| 0 <= i < attachments.len() ==> (#[trigger] attachments[i]).well_formed(),
        decreases n - cursor + if done { 0int } else { 1int },
    {
        let ghost tail = s.skip(cursor as int);
        let ghost before = Scan { text: cleaned@, markers: attachments.deep_view() };
        proof {
            lemma_first_span(tail);
        }
        match find_in(&v, cursor, n, &open_pat) {
            None => {
                push_range(&mut cleaned, &v, cursor, n);
                done = true;
                assert(scan(tail) == Scan { text: tail, markers: Seq::empty() });
                assert(attachments.deep_view() + Seq::<Marker>::empty() =~= attachments.deep_view());
            },
            Some(open) => {
                assert(tail.skip(open - cursor) =~= v@.subrange(open as int, n as int));
                match find_in(&v, open, n, &close_pat) {
                    None => {
                        push_range(&mut cleaned, &v, cursor, n);
                        done = true;
                        assert(scan(tail) == Scan { text: tail, markers: Seq::empty() });
                        assert(attachments.deep_view() + Seq::<Marker>::empty()
                            =~= attachments.deep_view());
                    },
                    Some(close) => {
                        assert(first_span(tail) == Some((open - cursor, close - cursor)));
                        assert(tail.subrange(open - cursor + 1, close - cursor) =~= v@.subrange(
                            open + 1,
                            close as int,
                        ));
                        assert(tail.skip(close - cursor + 1) =~= s.skip(close + 1));
                        assert(tail.take(open - cursor) =~= v@.subrange(
                            cursor as int,
                            open as int,
                        ));
                        assert(tail.take(close - cursor + 1) =~= v@.subrange(
                            cursor as int,
                            close + 1,
                        ));
                        let ghost rest = scan(s.skip(close + 1));
                        match read_span(&v, open + 1, close) {
                            Some(attachment) => {
                                let ghost m = attachment@;
                                push_range(&mut cleaned, &v, cursor, open);
                                let ghost old_markers = attachments.deep_view();
                                attachments.push(attachment);
                                assert(attachments.deep_view() =~= old_markers + seq![m]);
                                assert(before.text + (tail.take(open - cursor) + rest.text)
                                    =~= cleaned@ + rest.text);
                                assert(old_markers + (seq![m] + rest.markers) =~= (old_markers
                                    + seq![m]) + rest.markers);
                            },
                            None => {
                                push_range(&mut cleaned, &v, cursor, close + 1);
                                assert(before.text + (tail.take(close - cursor + 1) + rest.text)
                                    =~= cleaned@ + rest.text);
                            },
                        }
                        cursor = close + 1;
                    },
                }
            },
        }
    }
    let (a, b) = strip_bounds(&cleaned, 0, cleaned.len(), CharClass::Space);
    proof {
        assert(cleaned@.subrange(0, cleaned.len() as int) =~= cleaned@);
        if forall|i: int| 0 <= i < message@.len() ==> message@[i] != '[' {
            lemma_scan_plain(message@);
        }
    }
    (string_of(&cleaned, a, b), attachments)
}

/// Text without a `[` holds no marker and stays whole.
pub proof fn lemma_scan_plain(s: Seq<char>)
    requires
        forall|i: int| 0 <= i < s.len() ==> s[i] != '[',
    ensures
        scan(s) == (Scan { text: s, markers: Seq::empty() }),
{
    lemma_find_char(s, '[');
}

/// Whether every `[` that the scan of `s` comes to is closed by a `]`, so
/// that text put after `s` is scanned on its own.
pub open spec fn closed(s: Seq<char>) -> bool
    decreases s.len(),
    via closed_decreases
{
    match find(s, seq!['[']) {
        None => true,
        Some(_) => match first_span(s) {
            None => false,
            Some((open, close)) => closed(s.skip(close + 1)),
        },
    }
}

#[via_fn]
proof fn closed_decreases(s: Seq<char>) {
    lemma_first_span(s);
}

/// `inner` between two brackets.
pub open spec fn bracketed(inner: Seq<char>) -> Seq<char> {
    seq!['['] + inner + seq![']']
}

/// The scan of closed text followed by more text is the scan of the one
/// followed by the scan of the other: markers keep the order in which they
/// stand in the text.
pub proof fn lemma_scan_concat(a: Seq<char>, b: Seq<char>)
    requires
        closed(a),
    ensures
        scan(a + b) == join_scans(scan(a), scan(b)),
    decreases a.len(),
{
    let ab = a + b;
    let open_pat = seq!['['];
    let close_pat = seq![']'];
    lemma_first_span(a);
    lemma_first_span(b);
    lemma_first_span(ab);
    match find(a, open_pat) {
        None => {
            lemma_find_char(a, '[');
            lemma_find_char_after(a, b, '[');
            assert(scan(a) == Scan { text: a, markers: Seq::empty() });
            match find(b, open_pat) {
                None => {
                    assert(scan(ab).markers =~= scan(a).markers + scan(b).markers);
                },
                Some(ob) => {
                    lemma_find_char(b, '[');
                    assert(ab.skip(a.len() + ob) =~= b.skip(ob));
                    match find(b.skip(ob), close_pat) {
                        None => {
                            assert(scan(ab).markers =~= scan(a).markers + scan(b).markers);
                        },
                        Some(rel) => {
                            let cb = ob + rel;
                            assert(first_span(ab) == Some((a.len() + ob, a.len() + cb)));
                            assert(ab.skip(a.len() + cb + 1) =~= b.skip(cb + 1));
                            assert(ab.subrange(a.len() + ob + 1, a.len() + cb) =~= b.subrange(
                                ob + 1,
                                cb,
                            ));
                            assert(ab.take(a.len() + ob) =~= a + b.take(ob));
                            assert(ab.take(a.len() + cb + 1) =~= a + b.take(cb + 1));
                            let rest = scan(b.skip(cb + 1));
                            assert((a + b.take(ob)) + rest.text =~= a + (b.take(ob) + rest.text));
                            assert((a + b.take(cb + 1)) + rest.text =~= a + (b.take(cb + 1)
                                + rest.text));
                            assert(scan(ab).text =~= scan(a).text + scan(b).text);
                            assert(scan(ab).markers =~= scan(a).markers + scan(b).markers);
                        },
                    }
                },
            }
        },
        Some(_) => {
            let (open, close) = first_span(a)->0;
            lemma_find_in_prefix(a, b, open_pat);
            assert(ab.skip(open) =~= a.skip(open) + b);
            lemma_find_in_prefix(a.skip(open), b, close_pat);
            assert(first_span(ab) == Some((open, close)));
            assert(ab.skip(close + 1) =~= a.skip(close + 1) + b);
            lemma_scan_concat(a.skip(close + 1), b);
            assert(ab.subrange(open + 1, close) =~= a.subrange(open + 1, close));
            assert(ab.take(open) =~= a.take(open));
            assert(ab.take(close + 1) =~= a.take(close + 1));
            let rest_a = scan(a.skip(close + 1));
            let rest_b = scan(b);
            match read_marker(a.subrange(open + 1, close)) {
                Some(m) => {
                    assert(a.take(open) + (rest_a.text + rest_b.text) =~= (a.take(open)
                        + rest_a.text) + rest_b.text);
                    assert(seq![m] + (rest_a.markers + rest_b.markers) =~= (seq![m]
                        + rest_a.markers) + rest_b.markers);
                },
                None => {
                    assert(a.take(close + 1) + (rest_a.text + rest_b.text) =~= (a.take(close + 1)
                        + rest_a.text) + rest_b.text);
                },
            }
        },
    }
}

/// A span without a `]` inside it is closed; scanned alone, it gives its
/// marker and no text where it reads as one, and itself as text where it
/// does not.
pub proof fn lemma_scan_span(inner: Seq<char>)
    requires
        forall|i: int| 0 <= i < inner.len() ==> inner[i] != ']',
    ensures
        closed(bracketed(inner)),
        scan(bracketed(inner)) == match read_marker(inner) {
            Some(m) => Scan { text: Seq::empty(), markers: seq![m] },
            None => Scan { text: bracketed(inner), markers: Seq::empty() },
        },
{
    let s = bracketed(inner);
    let last: int = inner.len() as int + 1;
    let nothing = Seq::<char>::empty();
    lemma_find_char(s, '[');
    assert(s[0] == '[');
    assert(find(s, seq!['[']) == Some(0int));
    assert(s.skip(0) =~= s);
    lemma_find_char(s, ']');
    assert(s[last] == ']');
    assert forall|j: int| 0 <= j < last implies s[j] != ']' by {
        if j > 0 {
            assert(s[j] == inner[j - 1]);
        }
    }
    assert(first_span(s) == Some((0int, last)));
    assert(s.skip(last + 1) =~= nothing);
    lemma_find_char(nothing, '[');
    assert(scan(nothing) == Scan { text: nothing, markers: Seq::empty() });
    assert(closed(nothing));
    assert(s.subrange(1, last) =~= inner);
    assert(s.take(0) + nothing =~= nothing);
    assert(s.take(last + 1) + nothing =~= s);
    match read_marker(inner) {
        Some(m) => {
            assert(seq![m] + Seq::<Marker>::empty() =~= seq![m]);
        },
        None => {},
    }
}

/// Whether every character of `s` is an ASCII capital letter.
pub open spec fn all_capitals(s: Seq<char>) -> bool {
    forall|i: int| 0 <= i < s.len() ==> 0x41 <= (#[trigger] s[i]) as u32 <= 0x5A
}

/// A recognized kind name holds letters and white space only: neither a
/// colon nor a bracket.
pub proof fn lemma_kind_name_chars(name: Seq<char>)
    requires
        AttachmentKind::of_name(name) is Some,
    ensures
        forall|i: int| 0 <= i < name.len() ==> name[i] != ']' && name[i] != ':',
{
    let space = CharClass::Space;
    let inner = strip_start(name, space);
    let t = trim(name);
    let word = ascii_upper(t);
    let lead = leading(name, space) as int;
    lemma_leading(name, space);
    lemma_trailing(inner, space);
    assert(all_capitals(word)) by {
        reveal_strlit("IMAGE");
        reveal_strlit("PHOTO");
        reveal_strlit("DOCUMENT");
        reveal_strlit("FILE");
        reveal_strlit("VIDEO");
        reveal_strlit("AUDIO");
        reveal_strlit("VOICE");
        assert forall|i: int| 0 <= i < word.len() implies 0x41 <= (#[trigger] word[i]) as u32
            <= 0x5A by {
            if i == 0 {
            } else if i == 1 {
            } else if i == 2 {
            } else if i == 3 {
            } else if i == 4 {
            } else if i == 5 {
            } else if i == 6 {
            } else if i == 7 {
            }
        }
    }
    assert forall|i: int| 0 <= i < name.len() implies name[i] != ']' && name[i] != ':' by {
        if i < lead {
            assert(space.has(name[i]));
        } else if i < lead + t.len() {
            assert(name[i] == t[i - lead]);
            assert(word[i - lead] == crate::text::ascii_upper_char(t[i - lead]));
        } else {
            assert(name[i] == inner[i - lead]);
            assert(space.has(inner[i - lead]));
        }
    }
}

/// A marker `[name:target]` with a recognized kind name and a target that is
/// not empty once trimmed leaves the text and gives exactly one attachment,
/// of the canonical kind and with the trimmed target. It stands after the
/// markers of the text before it and before those of the text after it.
pub proof fn lemma_marker_taken(
    before: Seq<char>,
    name: Seq<char>,
    target: Seq<char>,
    after: Seq<char>,
)
    requires
        closed(before),
        forall|i: int| 0 <= i < target.len() ==> target[i] != ']',
        AttachmentKind::of_name(name) is Some,
        trim(target).len() > 0,
    ensures
        scan(before + bracketed(name + seq![':'] + target) + after).text == scan(before).text
            + scan(after).text,
        scan(before + bracketed(name + seq![':'] + target) + after).markers == scan(
            before,
        ).markers + seq![
            Marker { kind: AttachmentKind::of_name(name)->0, target: trim(target) },
        ] + scan(after).markers,
{
    let inner = name + seq![':'] + target;
    let span = bracketed(inner);
    let tail = seq![':'] + target;
    lemma_kind_name_chars(name);
    assert(inner =~= name + tail);
    lemma_find_char(tail, ':');
    assert(tail[0] == ':');
    lemma_find_char_after(name, tail, ':');
    assert(find(inner, seq![':']) == Some(name.len() as int));
    assert(inner.take(name.len() as int) =~= name);
    assert(inner.skip(name.len() as int + 1) =~= target);
    assert forall|i: int| 0 <= i < inner.len() implies inner[i] != ']' by {
        if i < name.len() {
            assert(inner[i] == name[i]);
        } else if i > name.len() {
            assert(inner[i] == target[i - name.len() - 1]);
        }
    }
    lemma_scan_span(inner);
    lemma_scan_concat(span, after);
    lemma_scan_concat(before, span + after);
    assert(before + span + after =~= before + (span + after));
    assert(scan(before).text + (Seq::<char>::empty() + scan(after).text) =~= scan(before).text
        + scan(after).text);
    let m = Marker { kind: AttachmentKind::of_name(name)->0, target: trim(target) };
    assert(scan(before).markers + (seq![m] + scan(after).markers) =~= scan(before).markers
        + seq![m] + scan(after).markers);
}

/// A bracketed span that does not read as a marker (no colon, a kind name
/// that is not recognized, or a target that is empty once trimmed) stays in
/// the text character for character and gives no attachment.
pub proof fn lemma_span_kept(before: Seq<char>, inner: Seq<char>, after: Seq<char>)
    requires
        closed(before),
        forall|i: int| 0 <= i < inner.len() ==> inner[i] != ']',
        read_marker(inner) is None,
    ensures
        scan(before + bracketed(inner) + after).text == scan(before).text + bracketed(inner)
            + scan(after).text,
        scan(before + bracketed(inner) + after).markers == scan(before).markers + scan(
            after,
        ).markers,
{
    let span = bracketed(inner);
    lemma_scan_span(inner);
    lemma_scan_concat(span, after);
    lemma_scan_concat(before, span + after);
    assert(before + span + after =~= before + (span + after));
    assert(scan(before).text + (span + scan(after).text) =~= scan(before).text + span + scan(
        after,
    ).text);
    assert(scan(before).markers + (Seq::<Marker>::empty() + scan(after).markers) =~= scan(
        before,
    ).markers + scan(after).markers);
}

/// Text without brackets that follows other text stays, and changes
/// nothing in the scan of the text before it.
pub proof fn lemma_scan_then_plain(a: Seq<char>, w: Seq<char>)
    requires
        forall|i: int| 0 <= i < w.len() ==> w[i] != '[' && w[i] != ']',
    ensures
        scan(a + w) == (Scan { text: scan(a).text + w, markers: scan(a).markers }),
    decreases a.len(),
{
    let aw = a + w;
    lemma_first_span(a);
    lemma_find_char(a, '[');
    lemma_find_char(w, '[');
    lemma_find_char(w, ']');
    match find(a, seq!['[']) {
        None => {
            lemma_find_char_after(a, w, '[');
        },
        Some(open) => {
            lemma_find_in_prefix(a, w, seq!['[']);
            let t = a.skip(open);
            assert(aw.skip(open) =~= t + w);
            lemma_find_char(t, ']');
            match find(t, seq![']']) {
                None => {
                    lemma_find_char_after(t, w, ']');
                },
                Some(rel) => {
                    let close = open + rel;
                    lemma_find_in_prefix(t, w, seq![']']);
                    assert(first_span(aw) == Some((open, close)));
                    assert(aw.skip(close + 1) =~= a.skip(close + 1) + w);
                    lemma_scan_then_plain(a.skip(close + 1), w);
                    assert(aw.subrange(open + 1, close) =~= a.subrange(open + 1, close));
                    assert(aw.take(open) =~= a.take(open));
                    assert(aw.take(close + 1) =~= a.take(close + 1));
                    let rest = scan(a.skip(close + 1));
                    assert(a.take(open) + (rest.text + w) =~= a.take(open) + rest.text + w);
                    assert(a.take(close + 1) + (rest.text + w) =~= a.take(close + 1) + rest.text
                        + w);
                },
            }
        },
    }
}

/// The text that a scan leaves holds no marker: scanned again, it stays as
/// it is and gives no attachment.
pub proof fn lemma_scan_leaves_no_marker(s: Seq<char>)
    ensures
        scan(scan(s).text) == (Scan { text: scan(s).text, markers: Seq::empty() }),
    decreases s.len(),
{
    lemma_first_span(s);
    match first_span(s) {
        None => {},
        Some((open, close)) => {
            let plain = s.take(open);
            let inner = s.subrange(open + 1, close);
            let rest = scan(s.skip(close + 1));
            lemma_scan_leaves_no_marker(s.skip(close + 1));
            lemma_scan_plain(plain);
            lemma_find_char(plain, '[');
            assert(closed(plain));
            match read_marker(inner) {
                Some(_) => {
                    lemma_scan_concat(plain, rest.text);
                    assert(Seq::<Marker>::empty() + Seq::<Marker>::empty() =~= Seq::<
                        Marker,
                    >::empty());
                },
                None => {
                    lemma_span_kept(plain, inner, rest.text);
                    assert(plain + bracketed(inner) =~= s.take(close + 1));
                    assert(Seq::<Marker>::empty() + Seq::<Marker>::empty() =~= Seq::<
                        Marker,
                    >::empty());
                },
            }
        },
    }
}

/// The cleaned text of a message holds no marker: taking the markers out of
/// it again changes nothing and finds no attachment.
pub proof fn lemma_cleaned_text_holds_no_marker(s: Seq<char>)
    ensures
        scan(trim(scan(s).text)) == (Scan { text: trim(scan(s).text), markers: Seq::empty() }),
        trim(trim(scan(s).text)) == trim(scan(s).text),
{
    let space = CharClass::Space;
    let whole = scan(s).text;
    let lead = leading(whole, space) as int;
    let front = whole.take(lead);
    let tail = strip_start(whole, space);
    let trail = trailing(tail, space) as int;
    let core = trim(whole);
    let back = tail.skip(tail.len() - trail);
    lemma_scan_leaves_no_marker(s);
    lemma_leading(whole, space);
    lemma_trailing(tail, space);
    // White space before the text is scanned on its own.
    assert forall|i: int| 0 <= i < front.len() implies front[i] != '[' by {
        assert(space.has(whole[i]));
    }
    lemma_scan_plain(front);
    lemma_find_char(front, '[');
    assert(closed(front));
    lemma_scan_concat(front, tail);
    assert(front + tail =~= whole);
    assert(scan(tail).text =~= (front + scan(tail).text).skip(lead));
    assert(scan(tail).text =~= tail);
    assert(scan(tail).markers =~= Seq::<Marker>::empty() + scan(tail).markers);
    // White space after the text changes nothing before it.
    assert forall|i: int| 0 <= i < back.len() implies back[i] != '[' && back[i] != ']' by {
        assert(space.has(tail[tail.len() - trail + i]));
    }
    lemma_scan_then_plain(core, back);
    assert(core + back =~= tail);
    assert(scan(core).text =~= (scan(core).text + back).take(core.len() as int));
    // What is trimmed already stays as it is.
    if core.len() > 0 {
        assert(core[0] == tail[0]);
        assert(core.last() == tail[tail.len() - trail - 1]);
    }
    lemma_leading_is(core, space, 0);
    assert(strip_start(core, space) =~= core);
    lemma_trailing_is(core, space, 0);
    assert(trim(core) =~= core);
}

/// The canonical name of every kind is read back as that kind.
pub proof fn lemma_name_round_trip(kind: AttachmentKind)
    ensures
        AttachmentKind::of_name(kind.name()) == Some(kind),
{
    reveal_strlit("IMAGE");
    reveal_strlit("PHOTO");
    reveal_strlit("DOCUMENT");
    reveal_strlit("FILE");
    reveal_strlit("VIDEO");
    reveal_strlit("AUDIO");
    reveal_strlit("VOICE");
    let n = kind.name();
    assert(trim(n) =~= n);
    assert(ascii_upper(n) =~= n);
    assert("IMAGE"@[0] != "VIDEO"@[0]);
    assert("IMAGE"@[0] != "AUDIO"@[0]);
    assert("VIDEO"@[1] != "VOICE"@[1]);
    assert("AUDIO"@[0] != "VOICE"@[0]);
}

} // verus!
