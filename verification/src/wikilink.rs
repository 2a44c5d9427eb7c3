//! In-text named references: `[[Name]]` and `[[Name|Display]]`.
//!
//! `segment` splits a string into plain-text spans and references,
//! scanning left to right for the earliest match; text that matches no
//! reference is passed through verbatim.

use vstd::prelude::*;
use vstd::string::*;

verus! {

/// A named reference, like `[[Foo]]` or `[[Foo|see foo]]`, in a post.
#[derive(Debug, PartialEq, Eq)]
pub struct WikiLink {
    pub display: Option<String>,
    pub name: String,
}

/// One span of a segmented string: plain text or a reference.
#[derive(Debug, PartialEq, Eq)]
pub enum Segment {
    Normal(String),
    Link(WikiLink),
}

/// Mathematical image of a `WikiLink`.
pub struct GLink {
    pub name: Seq<char>,
    pub display: Option<Seq<char>>,
}

/// Mathematical image of a `Segment`.
pub enum GSeg {
    Normal(Seq<char>),
    Link(GLink),
}

impl View for WikiLink {
    type V = GLink;

    open spec fn view(&self) -> GLink {
        GLink {
            name: self.name@,
            display: match self.display {
                Some(d) => Some(d@),
                None => None,
            },
        }
    }
}

impl View for Segment {
    type V = GSeg;

    open spec fn view(&self) -> GSeg {
        match self {
            Segment::Normal(t) => GSeg::Normal(t@),
            Segment::Link(l) => GSeg::Link(l@),
        }
    }
}

/// A character allowed inside a reference name or display text.
pub open spec fn name_char(c: char) -> bool {
    c != '|' && c != '[' && c != ']'
}

/// The first index at or after `j` whose character may not stand in a
/// name, or the length if every remaining character may.
pub open spec fn run_end(s: Seq<char>, j: int) -> int
    decreases s.len() - j,
{
    if j < 0 || j >= s.len() {
        s.len() as int
    } else if name_char(s[j]) {
        run_end(s, j + 1)
    } else {
        j
    }
}

pub proof fn lemma_run_end_range(s: Seq<char>, j: int)
    requires
        0 <= j <= s.len(),
    ensures
        j <= run_end(s, j) <= s.len(),
        run_end(s, j) < s.len() ==> !name_char(s[run_end(s, j)]),
        forall|k: int| j <= k < run_end(s, j) ==> name_char(s[k]),
    decreases s.len() - j,
{
    if j < s.len() && name_char(s[j]) {
        lemma_run_end_range(s, j + 1);
    }
}

/// A successful reference match: where it ends and what it captured.
pub struct LinkMatch {
    pub end: int,
    pub name: Seq<char>,
    pub display: Option<Seq<char>>,
}

/// Try to match a reference that starts exactly at index `i`:
/// `[[`, a non-empty name run, an optional `|` with an optional display
/// run, then `]]`.
pub open spec fn match_at(s: Seq<char>, i: int) -> Option<LinkMatch> {
    if 0 <= i && i + 2 <= s.len() && s[i] == '[' && s[i + 1] == '[' {
        let a = run_end(s, i + 2);
        if a == i + 2 {
            None
        } else if a < s.len() && s[a] == '|' {
            let b = run_end(s, a + 1);
            if b + 2 <= s.len() && s[b] == ']' && s[b + 1] == ']' {
                Some(
                    LinkMatch {
                        end: b + 2,
                        name: s.subrange(i + 2, a),
                        display: if b > a + 1 {
                            Some(s.subrange(a + 1, b))
                        } else {
                            None
                        },
                    },
                )
            } else {
                None
            }
        } else if a + 2 <= s.len() && s[a] == ']' && s[a + 1] == ']' {
            Some(LinkMatch { end: a + 2, name: s.subrange(i + 2, a), display: None })
        } else {
            None
        }
    } else {
        None
    }
}

pub proof fn lemma_match_at_end(s: Seq<char>, i: int)
    requires
        match_at(s, i) is Some,
    ensures
        i + 5 <= match_at(s, i)->Some_0.end <= s.len(),
        match_at(s, i)->Some_0.name.len() >= 1,
{
    lemma_run_end_range(s, i + 2);
    let a = run_end(s, i + 2);
    if a < s.len() && s[a] == '|' {
        lemma_run_end_range(s, a + 1);
    }
}

/// Segments of `s` from index `i` on; the characters from `start`
/// (inclusive) to `i` are plain text already passed over.
pub open spec fn scan(s: Seq<char>, i: int, start: int) -> Seq<GSeg>
    decreases s.len() - i
    via scan_decreases
{
    if !(0 <= start <= i <= s.len()) {
        Seq::empty()
    } else if i >= s.len() {
        if start < s.len() {
            seq![GSeg::Normal(s.subrange(start, s.len() as int))]
        } else {
            Seq::empty()
        }
    } else {
        match match_at(s, i) {
            Some(m) => (if start < i {
                seq![GSeg::Normal(s.subrange(start, i))]
            } else {
                Seq::empty()
            }) + seq![GSeg::Link(GLink { name: m.name, display: m.display })] + scan(
                s,
                m.end,
                m.end,
            ),
            None => scan(s, i + 1, start),
        }
    }
}

#[via_fn]
proof fn scan_decreases(s: Seq<char>, i: int, start: int) {
    if 0 <= start <= i <= s.len() && i < s.len() && match_at(s, i) is Some {
        lemma_match_at_end(s, i);
    }
}

/// What `segment` returns.
pub open spec fn segments_spec(s: Seq<char>) -> Seq<GSeg> {
    scan(s, 0, 0)
}

/// The references among a sequence of segments, in order.
pub open spec fn links_of(gs: Seq<GSeg>) -> Seq<GLink>
    decreases gs.len(),
{
    if gs.len() == 0 {
        Seq::empty()
    } else {
        (match gs[0] {
            GSeg::Link(l) => seq![l],
            GSeg::Normal(_) => Seq::empty(),
        }) + links_of(gs.drop_first())
    }
}

pub proof fn lemma_links_of_app(a: Seq<GSeg>, b: Seq<GSeg>)
    ensures
        links_of(a + b) =~= links_of(a) + links_of(b),
    decreases a.len(),
{
    if a.len() == 0 {
        assert(a + b =~= b);
    } else {
        assert((a + b).drop_first() =~= a.drop_first() + b);
        lemma_links_of_app(a.drop_first(), b);
    }
}

/// The text a segment stands for: plain text itself, a reference
/// written back in bracket syntax.
pub open spec fn seg_text(g: GSeg) -> Seq<char> {
    match g {
        GSeg::Normal(t) => t,
        GSeg::Link(l) => seq!['[', '['] + l.name + (match l.display {
            Some(d) => seq!['|'] + d,
            None => Seq::empty(),
        }) + seq![']', ']'],
    }
}

/// All the segments' texts, in order.
pub open spec fn concat_texts(gs: Seq<GSeg>) -> Seq<char>
    decreases gs.len(),
{
    if gs.len() == 0 {
        Seq::empty()
    } else {
        seg_text(gs[0]) + concat_texts(gs.drop_first())
    }
}

pub proof fn lemma_concat_texts_app(a: Seq<GSeg>, b: Seq<GSeg>)
    ensures
        concat_texts(a + b) =~= concat_texts(a) + concat_texts(b),
    decreases a.len(),
{
    if a.len() == 0 {
        assert(a + b =~= b);
    } else {
        assert((a + b).drop_first() =~= a.drop_first() + b);
        lemma_concat_texts_app(a.drop_first(), b);
    }
}

/// No match in `s` ends in `|]]` while capturing no display text; for
/// such a match the bracket syntax cannot be written back verbatim.
pub open spec fn no_bare_pipe_matches(s: Seq<char>) -> bool {
    forall|i: int|
        (#[trigger] match_at(s, i)) matches Some(m) ==> (m.display is None ==> s[m.end - 3] != '|')
}

proof fn lemma_scan_partition(s: Seq<char>, i: int, start: int)
    requires
        no_bare_pipe_matches(s),
        0 <= start <= i <= s.len(),
    ensures
        concat_texts(scan(s, i, start)) =~= s.subrange(start, s.len() as int),
    decreases s.len() - i,
{
    if i >= s.len() {
        if start < s.len() {
            assert(seq![GSeg::Normal(s.subrange(start, s.len() as int))].drop_first() =~= Seq::<
                GSeg,
            >::empty());
            assert(concat_texts(Seq::<GSeg>::empty()) =~= Seq::<char>::empty());
            assert(concat_texts(scan(s, i, start)) =~= s.subrange(start, s.len() as int));
        } else {
            assert(scan(s, i, start) =~= Seq::<GSeg>::empty());
        }
    } else {
        match match_at(s, i) {
            Some(m) => {
                lemma_match_at_end(s, i);
                lemma_scan_partition(s, m.end, m.end);
                let link = GSeg::Link(GLink { name: m.name, display: m.display });
                // the reference's text is exactly the slice it matched
                assert(seg_text(link) =~= s.subrange(i, m.end)) by {
                    lemma_run_end_range(s, i + 2);
                    let a = run_end(s, i + 2);
                    if a < s.len() && s[a] == '|' {
                        lemma_run_end_range(s, a + 1);
                        let b = run_end(s, a + 1);
                        if b > a + 1 {
                        } else {
                            // a display-less match through the `|` branch ends
                            // in `|]]`, which the precondition rules out
                            assert(match_at(s, i) matches Some(mm) ==> (mm.display is None ==> s[mm.end - 3] != '|'));
                            assert(false);
                        }
                    }
                }
                let head = if start < i {
                    seq![GSeg::Normal(s.subrange(start, i))]
                } else {
                    Seq::<GSeg>::empty()
                };
                lemma_concat_texts_app(head + seq![link], scan(s, m.end, m.end));
                lemma_concat_texts_app(head, seq![link]);
                assert(scan(s, i, start) =~= (head + seq![link]) + scan(s, m.end, m.end));
                assert(concat_texts(seq![link]) =~= seg_text(link)) by {
                    assert(seq![link][0] == link);
                    assert(seq![link].drop_first() =~= Seq::<GSeg>::empty());
                    assert(concat_texts(Seq::<GSeg>::empty()) =~= Seq::<char>::empty());
                }
                if start < i {
                    assert(concat_texts(head) =~= s.subrange(start, i)) by {
                        assert(head[0] == GSeg::Normal(s.subrange(start, i)));
                        assert(head.drop_first() =~= Seq::<GSeg>::empty());
                        assert(concat_texts(Seq::<GSeg>::empty()) =~= Seq::<char>::empty());
                    }
                } else {
                    assert(concat_texts(head) =~= Seq::<char>::empty());
                }
            },
            None => {
                lemma_scan_partition(s, i + 1, start);
            },
        }
    }
}

/// Segmentation is a partition: the texts of the segments of `s`,
/// concatenated in order, give back `s` exactly.  The one family of
/// inputs left out is text holding a display-less reference written
/// with a trailing `|`, whose bracket syntax is not recoverable from
/// the captured name alone.
pub proof fn lemma_segment_partition(s: Seq<char>)
    requires
        no_bare_pipe_matches(s),
    ensures
        concat_texts(segments_spec(s)) == s,
{
    lemma_scan_partition(s, 0, 0);
    assert(s.subrange(0, s.len() as int) =~= s);
    assert(concat_texts(segments_spec(s)) =~= s);
}

impl WikiLink {
    /// The display text if there is one, else the name.
    pub open spec fn display_or_name_spec(g: GLink) -> Seq<char> {
        match g.display {
            Some(d) => d,
            None => g.name,
        }
    }

    /// The text a rendered reference shows: its display if present,
    /// else its name.
    pub fn display_or_name(&self) -> (r: &String)
        ensures
            r@ == Self::display_or_name_spec(self@),
    {
        match &self.display {
            Some(d) => d,
            None => &self.name,
        }
    }

    /// Extract all of the references in a string, in order.
    pub fn extract(data: &str) -> (r: Vec<WikiLink>)
        ensures
            r@.map_values(|w: WikiLink| w@) =~= links_of(segments_spec(data@)),
    {
        let segs = Self::segment(data);
        let ghost gsegs = segs@.map_values(|g: Segment| g@);
        let mut out: Vec<WikiLink> = Vec::new();
        let mut k: usize = 0;
        while k < segs.len()
            invariant
                k <= segs@.len(),
                gsegs == segs@.map_values(|g: Segment| g@),
                gsegs =~= segments_spec(data@),
                out@.map_values(|w: WikiLink| w@) =~= links_of(gsegs.take(k as int)),
            decreases segs@.len() - k,
        {
            proof {
                assert(gsegs.take(k as int + 1) =~= gsegs.take(k as int) + seq![gsegs[k as int]]);
                lemma_links_of_app(gsegs.take(k as int), seq![gsegs[k as int]]);
                assert(seq![gsegs[k as int]][0] == gsegs[k as int]);
                assert(seq![gsegs[k as int]].drop_first() =~= Seq::<GSeg>::empty());
                assert(links_of(Seq::<GSeg>::empty()) =~= Seq::<GLink>::empty());
                assert(gsegs[k as int] == segs@[k as int]@);
            }
            match &segs[k] {
                Segment::Link(l) => {
                    let copied = WikiLink {
                        display: match &l.display {
                            Some(d) => Some(d.as_str().to_owned()),
                            None => None,
                        },
                        name: l.name.as_str().to_owned(),
                    };
                    proof {
                        assert(copied@ == l@);
                        assert(links_of(seq![gsegs[k as int]]) =~= seq![l@]);
                        assert(out@.push(copied).map_values(|w: WikiLink| w@) =~= out@.map_values(
                            |w: WikiLink| w@,
                        ) + seq![copied@]);
                    }
                    out.push(copied);
                },
                Segment::Normal(_) => {
                    proof {
                        assert(links_of(seq![gsegs[k as int]]) =~= Seq::<GLink>::empty());
                    }
                },
            }
            k = k + 1;
        }
        proof {
            assert(gsegs.take(gsegs.len() as int) =~= gsegs);
        }
        out
    }

    /// Segment a string into plain-text spans and references, scanning
    /// for the leftmost reference each time; together the segments
    /// cover the whole input.
    pub fn segment(data: &str) -> (r: Vec<Segment>)
        ensures
            r@.map_values(|g: Segment| g@) =~= segments_spec(data@),
    {
        let len = data.unicode_len();
        let mut out: Vec<Segment> = Vec::new();
        let mut i: usize = 0;
        let mut start: usize = 0;
        loop
            invariant
                len == data@.len(),
                0 <= start <= i <= len,
                segments_spec(data@) =~= out@.map_values(|g: Segment| g@) + scan(
                    data@,
                    i as int,
                    start as int,
                ),
            decreases len - i,
        {
            if i == len {
                if start < len {
                    let tail = data.substring_char(start, len).to_owned();
                    proof {
                        let gs = out@.map_values(|g: Segment| g@);
                        assert(out@.push(Segment::Normal(tail)).map_values(|g: Segment| g@) =~= gs
                            + seq![GSeg::Normal(tail@)]);
                    }
                    out.push(Segment::Normal(tail));
                }
                proof {
                    if start < len {
                        assert(scan(data@, i as int, start as int) =~= seq![GSeg::Normal(
                            data@.subrange(start as int, len as int),
                        )]);
                    } else {
                        assert(scan(data@, i as int, start as int) =~= Seq::<GSeg>::empty());
                    }
                }
                return out;
            }
            match Self::try_match(data, i, len) {
                Some((end, link)) => {
                    let ghost m = match_at(data@, i as int)->Some_0;
                    proof {
                        lemma_match_at_end(data@, i as int);
                    }
                    if start < i {
                        let plain = data.substring_char(start, i).to_owned();
                        proof {
                            let gs = out@.map_values(|g: Segment| g@);
                            assert(out@.push(Segment::Normal(plain)).map_values(|g: Segment| g@)
                                =~= gs + seq![GSeg::Normal(plain@)]);
                        }
                        out.push(Segment::Normal(plain));
                    }
                    proof {
                        let gs = out@.map_values(|g: Segment| g@);
                        assert(out@.push(Segment::Link(link)).map_values(|g: Segment| g@) =~= gs
                            + seq![GSeg::Link(link@)]);
                        assert(GSeg::Link(link@) == GSeg::Link(GLink { name: m.name, display: m.display }));
                    }
                    out.push(Segment::Link(link));
                    proof {
                        let gs_old = scan(data@, i as int, start as int);
                        let head = if (start as int) < (i as int) {
                            seq![GSeg::Normal(data@.subrange(start as int, i as int))]
                        } else {
                            Seq::<GSeg>::empty()
                        };
                        assert(gs_old =~= head + seq![
                            GSeg::Link(GLink { name: m.name, display: m.display }),
                        ] + scan(data@, m.end, m.end));
                    }
                    i = end;
                    start = end;
                },
                None => {
                    proof {
                        assert(scan(data@, i as int, start as int) =~= scan(
                            data@,
                            i as int + 1,
                            start as int,
                        ));
                    }
                    i = i + 1;
                },
            }
        }
    }

    /// Try to recognise a reference starting exactly at index `i`.
    fn try_match(s: &str, i: usize, len: usize) -> (r: Option<(usize, WikiLink)>)
        requires
            len == s@.len(),
            i <= len,
        ensures
            (r is Some) == (match_at(s@, i as int) is Some),
            r matches Some(p) ==> match_at(s@, i as int) matches Some(m) && p.0 == m.end && p.1@.name
                == m.name && p.1@.display == m.display,
    {
        if len - i < 5 {
            proof {
                if match_at(s@, i as int) is Some {
                    lemma_match_at_end(s@, i as int);
                }
            }
            return None;
        }
        if s.get_char(i) != '[' || s.get_char(i + 1) != '[' {
            return None;
        }
        let a = Self::name_run(s, i + 2, len);
        proof {
            lemma_run_end_range(s@, i as int + 2);
        }
        if a == i + 2 {
            return None;
        }
        if a < len && s.get_char(a) == '|' {
            let b = Self::name_run(s, a + 1, len);
            proof {
                lemma_run_end_range(s@, a as int + 1);
            }
            if len - b >= 2 && s.get_char(b) == ']' && s.get_char(b + 1) == ']' {
                let name = s.substring_char(i + 2, a).to_owned();
                let display = if b > a + 1 {
                    Some(s.substring_char(a + 1, b).to_owned())
                } else {
                    None
                };
                Some((b + 2, WikiLink { display, name }))
            } else {
                None
            }
        } else if len - a >= 2 && s.get_char(a) == ']' && s.get_char(a + 1) == ']' {
            let name = s.substring_char(i + 2, a).to_owned();
            Some((a + 2, WikiLink { display: None, name }))
        } else {
            None
        }
    }

    /// Whether the character at index `e` may stand in a name.
    fn name_char_at(s: &str, e: usize) -> (r: bool)
        requires
            e < s@.len(),
        ensures
            r == name_char(s@[e as int]),
    {
        let c = s.get_char(e);
        c != '|' && c != '[' && c != ']'
    }

    /// The end of the run of name characters starting at `j`.
    fn name_run(s: &str, j: usize, len: usize) -> (r: usize)
        requires
            len == s@.len(),
            j <= len,
        ensures
            r == run_end(s@, j as int),
            j <= r <= len,
    {
        let mut e: usize = j;
        while e < len && Self::name_char_at(s, e)
            invariant
                len == s@.len(),
                j <= e <= len,
                forall|k: int| j <= k < e ==> name_char(s@[k]),
            decreases len - e,
        {
            e = e + 1;
        }
        proof {
            lemma_run_end_range(s@, j as int);
            let n = run_end(s@, j as int);
            if n < e {
                assert(name_char(s@[n]));
            }
            if e < n {
                assert(!name_char(s@[e as int]));
            }
        }
        e
    }
}

} // verus!
