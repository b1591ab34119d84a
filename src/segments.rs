use vstd::prelude::*;
use vstd::string::StrSliceExecFns;

verus! {

broadcast use vstd::string::axiom_spec_iter;

/// A piece of sealed content: plain text, or the payload of a `{{ ... }}`
/// marker.
#[derive(Debug)]
pub enum Segment {
    Secret { encrypted: String },
    Text(String),
}

/// The view of a [`Segment`].
pub enum SegmentView {
    Secret(Seq<char>),
    Text(Seq<char>),
}

impl View for Segment {
    type V = SegmentView;

    open spec fn view(&self) -> SegmentView {
        match self {
            Segment::Secret { encrypted } => SegmentView::Secret(encrypted@),
            Segment::Text(t) => SegmentView::Text(t@),
        }
    }
}

impl PartialEq for Segment {
    fn eq(&self, other: &Segment) -> (r: bool) {
        match (self, other) {
            (Segment::Secret { encrypted: a }, Segment::Secret { encrypted: b }) => *a == *b,
            (Segment::Text(a), Segment::Text(b)) => *a == *b,
            _ => false,
        }
    }
}

impl vstd::std_specs::cmp::PartialEqSpecImpl for Segment {
    open spec fn obeys_eq_spec() -> bool {
        true
    }

    open spec fn eq_spec(&self, other: &Segment) -> bool {
        self@ == other@
    }
}

pub open spec fn segments_view(s: Seq<Segment>) -> Seq<SegmentView> {
    s.map_values(|x: Segment| x@)
}

/// `x` without a leading `"{{ "`.
pub open spec fn strip_open(x: Seq<char>) -> Seq<char> {
    if x.len() >= 3 && x[0] == '{' && x[1] == '{' && x[2] == ' ' {
        x.subrange(3, x.len() as int)
    } else {
        x
    }
}

/// `x` without a trailing `" }}"`.
pub open spec fn strip_close(x: Seq<char>) -> Seq<char> {
    if x.len() >= 3 && x[x.len() - 3] == ' ' && x[x.len() - 2] == '}' && x[x.len() - 1] == '}' {
        x.subrange(0, x.len() - 3)
    } else {
        x
    }
}

/// A pair of `c` starts at `i`.
pub open spec fn pair_at(s: Seq<char>, i: int, c: char) -> bool {
    0 <= i && i + 1 < s.len() && s[i] == c && s[i + 1] == c
}

/// The segments of `s`, read left to right from `i` with the pending segment
/// starting at `start` and `acc` already found. `{{` ends the pending text and
/// opens a marker; `}}` closes the pending segment as a secret, trimmed of
/// `"{{ "` and `" }}"`; what is pending at the end is text.
pub open spec fn scan(s: Seq<char>, i: int, start: int, acc: Seq<SegmentView>) -> Seq<SegmentView>
    decreases s.len() - i,
{
    if i >= s.len() {
        if start < s.len() {
            acc.push(SegmentView::Text(s.subrange(start, s.len() as int)))
        } else {
            acc
        }
    } else if pair_at(s, i, '{') {
        let acc2 = if start < i {
            acc.push(SegmentView::Text(s.subrange(start, i)))
        } else {
            acc
        };
        scan(s, i + 2, i, acc2)
    } else if pair_at(s, i, '}') {
        scan(s, i + 2, i + 2, acc.push(SegmentView::Secret(strip_close(strip_open(s.subrange(start, i + 2))))))
    } else {
        scan(s, i + 1, start, acc)
    }
}

/// The segments of `s`.
pub open spec fn segments_of(s: Seq<char>) -> Seq<SegmentView> {
    scan(s, 0, 0, Seq::empty())
}

pub fn chars_of(s: &str) -> (r: Vec<char>)
    ensures
        r@ == s@,
{
    let mut r: Vec<char> = Vec::new();
    for c in it: s.chars()
        invariant
            it.seq() == s@,
            r@ == it.seq().subrange(0, it.index() as int),
    {
        r.push(c);
    }
    r
}

/// Splits `content` into text and the payloads of `{{ ... }}` markers, left to
/// right.
pub fn find_replaceable_segments(content: &str) -> (r: Vec<Segment>)
    ensures
        segments_view(r@) == segments_of(content@),
{
    let chars = chars_of(content);
    let n = chars.len();
    let mut segments: Vec<Segment> = Vec::new();
    let mut start: usize = 0;
    let mut i: usize = 0;
    assert(segments_view(segments@) =~= Seq::<SegmentView>::empty());
    while i < n
        invariant
            chars@ == content@,
            n == chars@.len(),
            start <= i <= n,
            scan(content@, i as int, start as int, segments_view(segments@)) == segments_of(content@),
        decreases n - i,
    {
        let ghost prev = segments@;
        if chars[i] == '{' && i + 1 < n && chars[i + 1] == '{' {
            if start < i {
                segments.push(Segment::Text(content.substring_char(start, i).to_owned()));
                assert(segments_view(segments@) =~= segments_view(prev).push(SegmentView::Text(content@.subrange(start as int, i as int))));
            }
            start = i;
            i = i + 2;
        } else if chars[i] == '}' && i + 1 < n && chars[i + 1] == '}' {
            let mut a = start;
            let mut b = i + 2;
            let ghost x = content@.subrange(start as int, b as int);
            if b - a >= 3 && chars[a] == '{' && chars[a + 1] == '{' && chars[a + 2] == ' ' {
                a = a + 3;
            }
            assert(content@.subrange(a as int, b as int) == strip_open(x));
            if b - a >= 3 && chars[b - 3] == ' ' && chars[b - 2] == '}' && chars[b - 1] == '}' {
                b = b - 3;
            }
            assert(content@.subrange(a as int, b as int) =~= strip_close(strip_open(x)));
            segments.push(Segment::Secret { encrypted: content.substring_char(a, b).to_owned() });
            assert(segments_view(segments@) =~= segments_view(prev).push(SegmentView::Secret(strip_close(strip_open(x)))));
            i = i + 2;
            start = i;
        } else {
            i = i + 1;
        }
    }
    if start < n {
        let ghost prev = segments@;
        segments.push(Segment::Text(content.substring_char(start, n).to_owned()));
        assert(segments_view(segments@) =~= segments_view(prev).push(SegmentView::Text(content@.subrange(start as int, n as int))));
    }
    segments
}

} // verus!
