//! The text side of node share links: which lines of a pasted text are
//! links, and how a node's status is written in a link.
use vstd::prelude::*;
use vstd::string::StringExecFns;
use crate::session::NodeStatus;
use crate::text::push_char;
use vstd::std_specs::iter::IteratorSpec;

verus! {

broadcast use vstd::string::group_string_axioms;

/// Whether `c` is white space (Unicode `White_Space`, as
/// `char::is_whitespace` has it).
pub open spec fn is_white(c: char) -> bool {
    ('\u{9}' <= c <= '\u{d}') || c == ' ' || c == '\u{85}' || c == '\u{a0}' || c == '\u{1680}'
        || ('\u{2000}' <= c <= '\u{200a}') || c == '\u{2028}' || c == '\u{2029}' || c == '\u{202f}'
        || c == '\u{205f}' || c == '\u{3000}'
}

/// `s` without leading white space.
pub open spec fn trim_start(s: Seq<char>) -> Seq<char>
    decreases s.len(),
{
    if s.len() > 0 && is_white(s[0]) {
        trim_start(s.drop_first())
    } else {
        s
    }
}

/// `s` without trailing white space.
pub open spec fn trim_end(s: Seq<char>) -> Seq<char>
    decreases s.len(),
{
    if s.len() > 0 && is_white(s.last()) {
        trim_end(s.drop_last())
    } else {
        s
    }
}

/// `s` without leading or trailing white space.
pub open spec fn trim(s: Seq<char>) -> Seq<char> {
    trim_end(trim_start(s))
}

/// The pieces of `s` between line feeds (the last possibly empty).
pub open spec fn split_lines(s: Seq<char>) -> Seq<Seq<char>>
    decreases s.len(),
{
    if s.len() == 0 {
        seq![Seq::empty()]
    } else {
        let p = split_lines(s.drop_last());
        if s.last() == '\n' {
            p.push(Seq::empty())
        } else {
            p.update(p.len() - 1, p.last().push(s.last()))
        }
    }
}

/// Whether a trimmed line carries a link: it is not empty and not a
/// comment.
pub open spec fn is_link_line(line: Seq<char>) -> bool {
    line.len() > 0 && line[0] != '#'
}

/// The trimmed lines of the pieces that carry links.
pub open spec fn link_lines_of(pieces: Seq<Seq<char>>) -> Seq<Seq<char>>
    decreases pieces.len(),
{
    if pieces.len() == 0 {
        Seq::empty()
    } else {
        let r = link_lines_of(pieces.drop_last());
        let t = trim(pieces.last());
        if is_link_line(t) {
            r.push(t)
        } else {
            r
        }
    }
}

/// The lines of a text that carry links, trimmed: blank lines and lines
/// starting with `#` are skipped.
pub open spec fn text_link_lines(text: Seq<char>) -> Seq<Seq<char>> {
    link_lines_of(split_lines(text))
}

/// The prefix of a share link.
pub open spec fn link_scheme_prefix() -> Seq<char> {
    seq!['h', 'y', 'd', 'r', 'a', ':', '/', '/']
}

/// How a status is written in a link.
pub open spec fn status_text(status: NodeStatus) -> Seq<char> {
    match status {
        NodeStatus::Online => seq!['o', 'n', 'l', 'i', 'n', 'e'],
        NodeStatus::Degraded => seq!['d', 'e', 'g', 'r', 'a', 'd', 'e', 'd'],
        NodeStatus::Offline => seq!['o', 'f', 'f', 'l', 'i', 'n', 'e'],
    }
}

/// The status a link's text stands for; anything unknown reads as online.
pub open spec fn status_of_text(s: Seq<char>) -> NodeStatus {
    if s == status_text(NodeStatus::Degraded) {
        NodeStatus::Degraded
    } else if s == status_text(NodeStatus::Offline) {
        NodeStatus::Offline
    } else {
        NodeStatus::Online
    }
}

fn is_white_char(c: char) -> (w: bool)
    ensures
        w == is_white(c),
{
    ('\u{9}' <= c && c <= '\u{d}') || c == ' ' || c == '\u{85}' || c == '\u{a0}' || c == '\u{1680}'
        || ('\u{2000}' <= c && c <= '\u{200a}') || c == '\u{2028}' || c == '\u{2029}' || c
        == '\u{202f}' || c == '\u{205f}' || c == '\u{3000}'
}

proof fn lemma_trim_start_skip(s: Seq<char>, k: int)
    requires
        0 <= k <= s.len(),
        forall|i: int| 0 <= i < k ==> is_white(s[i]),
        k < s.len() ==> !is_white(s[k]),
    ensures
        trim_start(s) == s.subrange(k, s.len() as int),
    decreases k,
{
    if k > 0 {
        let d = s.drop_first();
        lemma_trim_start_skip(d, k - 1);
        assert(d.subrange(k - 1, d.len() as int) =~= s.subrange(k, s.len() as int));
    } else {
        assert(s.subrange(0, s.len() as int) =~= s);
    }
}

proof fn lemma_trim_end_cut(s: Seq<char>, e: int)
    requires
        0 <= e <= s.len(),
        forall|i: int| e <= i < s.len() ==> is_white(s[i]),
        e > 0 ==> !is_white(s[e - 1]),
    ensures
        trim_end(s) == s.subrange(0, e),
    decreases s.len() - e,
{
    if e < s.len() {
        let d = s.drop_last();
        lemma_trim_end_cut(d, e);
        assert(d.subrange(0, e) =~= s.subrange(0, e));
    } else {
        assert(s.subrange(0, e) =~= s);
    }
}

/// Trims `line` and, when it carries a link, adds it to `out`.
fn push_if_link(out: &mut Vec<String>, line: &Vec<char>)
    ensures
        final(out)@.len() == old(out)@.len() + (if is_link_line(trim(line@)) { 1int } else { 0 }),
        forall|i: int| 0 <= i < old(out)@.len() ==> final(out)@[i] == old(out)@[i],
        is_link_line(trim(line@)) ==> final(out)@[old(out)@.len() as int]@ == trim(line@),
{
    let n = line.len();
    let mut start: usize = 0;
    while start < n && is_white_char(line[start])
        invariant
            start <= n == line@.len(),
            forall|i: int| 0 <= i < start ==> is_white(line@[i]),
        decreases n - start,
    {
        start = start + 1;
    }
    proof {
        lemma_trim_start_skip(line@, start as int);
    }
    let ghost ts = line@.subrange(start as int, n as int);
    let mut end: usize = n;
    while end > start && is_white_char(line[end - 1])
        invariant
            start <= end <= n == line@.len(),
            ts == line@.subrange(start as int, n as int),
            forall|i: int| end <= i < n ==> is_white(line@[i]),
        decreases end - start,
    {
        end = end - 1;
    }
    proof {
        assert forall|i: int| end - start <= i < ts.len() implies is_white(ts[i]) by {
            assert(ts[i] == line@[start + i]);
        }
        if end > start {
            assert(ts[end - start - 1] == line@[end - 1]);
        }
        lemma_trim_end_cut(ts, end - start);
        assert(ts.subrange(0, end - start) =~= line@.subrange(start as int, end as int));
    }
    if end > start && line[start] != '#' {
        let mut s = String::new();
        let mut i: usize = start;
        while i < end
            invariant
                start <= i <= end <= n == line@.len(),
                s@ == line@.subrange(start as int, i as int),
            decreases end - i,
        {
            push_char(&mut s, line[i]);
            i = i + 1;
            assert(s@ =~= line@.subrange(start as int, i as int));
        }
        out.push(s);
    }
}

/// The lines of `text` that carry links, trimmed; blank lines and comment
/// lines (starting with `#`) are skipped.
pub fn link_lines(text: &str) -> (lines: Vec<String>)
    ensures
        lines@.len() == text_link_lines(text@).len(),
        forall|i: int| 0 <= i < lines@.len() ==> #[trigger] lines@[i]@ == text_link_lines(text@)[i],
{
    let mut out: Vec<String> = Vec::new();
    let mut current: Vec<char> = Vec::new();
    let mut it = text.chars();
    let ghost mut done: Seq<char> = Seq::empty();
    loop
        invariant
            done + it.remaining() == text@,
            it.obeys_prophetic_iter_laws(),
            it.decrease() is Some,
            split_lines(done).len() > 0,
            current@ == split_lines(done).last(),
            out@.len() == link_lines_of(split_lines(done).drop_last()).len(),
            forall|i: int| 0 <= i < out@.len() ==> #[trigger] out@[i]@ == link_lines_of(
                split_lines(done).drop_last(),
            )[i],
        ensures
            done == text@,
            split_lines(done).len() > 0,
            current@ == split_lines(done).last(),
            out@.len() == link_lines_of(split_lines(done).drop_last()).len(),
            forall|i: int| 0 <= i < out@.len() ==> #[trigger] out@[i]@ == link_lines_of(
                split_lines(done).drop_last(),
            )[i],
        decreases it.decrease()->0,
    {
        let ghost before = it.remaining();
        match it.next() {
            Some(c) => {
                proof {
                    assert(before.len() > 0);
                    assert(c == before[0]);
                    assert(done.push(c) + before.drop_first() =~= done + before);
                }
                let ghost pieces = split_lines(done);
                let ghost next = done.push(c);
                proof {
                    assert(next.drop_last() =~= done);
                }
                if c == '\n' {
                    let ghost prev_out = out@;
                    push_if_link(&mut out, &current);
                    current = Vec::new();
                    proof {
                        let np = split_lines(next);
                        assert(np == pieces.push(Seq::empty()));
                        assert(np.drop_last() =~= pieces);
                        done = next;
                    }
                    assert(current@ =~= split_lines(done).last());
                } else {
                    current.push(c);
                    proof {
                        let np = split_lines(next);
                        assert(np == pieces.update(pieces.len() - 1, pieces.last().push(c)));
                        assert(np.drop_last() =~= pieces.drop_last());
                        done = next;
                    }
                    assert(current@ =~= split_lines(done).last());
                }
            },
            None => {
                proof {
                    assert(before.len() == 0);
                    assert(done =~= text@);
                }
                break;
            },
        }
    }
    let ghost before = out@;
    push_if_link(&mut out, &current);
    proof {
        let pieces = split_lines(done);
        let lo = link_lines_of(pieces);
        let prev = link_lines_of(pieces.drop_last());
        assert(lo == if is_link_line(trim(pieces.last())) { prev.push(trim(pieces.last())) } else { prev });
        assert forall|i: int| 0 <= i < out@.len() implies #[trigger] out@[i]@ == lo[i] by {
            if i < before.len() {
                assert(out@[i] == before[i]);
            }
        }
    }
    out
}

/// Whether a line is a share link (starts with `hydra://`).
pub fn is_share_link(line: &str) -> (b: bool)
    ensures
        b == (line@.len() >= 8 && line@.subrange(0, 8) == link_scheme_prefix()),
{
    let n = line.unicode_len();
    if n < 8 {
        return false;
    }
    let prefix = ['h', 'y', 'd', 'r', 'a', ':', '/', '/'];
    let mut i: usize = 0;
    while i < 8
        invariant
            i <= 8 <= n == line@.len(),
            prefix@ == link_scheme_prefix(),
            forall|j: int| 0 <= j < i ==> line@[j] == prefix@[j],
        decreases 8 - i,
    {
        if line.get_char(i) != prefix[i] {
            assert(line@.subrange(0, 8)[i as int] != link_scheme_prefix()[i as int]);
            return false;
        }
        i = i + 1;
    }
    assert(line@.subrange(0, 8) =~= link_scheme_prefix());
    true
}

/// How `status` is written in a link.
pub fn status_to_text(status: NodeStatus) -> (s: String)
    ensures
        s@ == status_text(status),
{
    let s = match status {
        NodeStatus::Online => String::from_str("online"),
        NodeStatus::Degraded => String::from_str("degraded"),
        NodeStatus::Offline => String::from_str("offline"),
    };
    proof {
        reveal_strlit("online");
        reveal_strlit("degraded");
        reveal_strlit("offline");
    }
    assert(s@ =~= status_text(status));
    s
}

/// The status a link's text stands for; anything unknown reads as online.
pub fn status_from_text(s: &str) -> (status: NodeStatus)
    ensures
        status == status_of_text(s@),
{
    let degraded = status_to_text(NodeStatus::Degraded);
    let offline = status_to_text(NodeStatus::Offline);
    if text_equals(s, degraded.as_str()) {
        NodeStatus::Degraded
    } else if text_equals(s, offline.as_str()) {
        NodeStatus::Offline
    } else {
        NodeStatus::Online
    }
}

pub(crate) fn text_equals(a: &str, b: &str) -> (eq: bool)
    ensures
        eq == (a@ == b@),
{
    let n = a.unicode_len();
    let m = b.unicode_len();
    if n != m {
        return false;
    }
    let mut i: usize = 0;
    while i < n
        invariant
            i <= n == a@.len() == b@.len(),
            forall|j: int| 0 <= j < i ==> a@[j] == b@[j],
        decreases n - i,
    {
        if a.get_char(i) != b.get_char(i) {
            return false;
        }
        i = i + 1;
    }
    assert(a@ =~= b@);
    true
}

/// Reading back the word written for a status gives that status, and the
/// words are `online`, `degraded` and `offline`.
pub proof fn status_text_reads_back(status: NodeStatus)
    ensures
        status_of_text(status_text(status)) == status,
        status_text(NodeStatus::Online) == "online"@,
        status_text(NodeStatus::Degraded) == "degraded"@,
        status_text(NodeStatus::Offline) == "offline"@,
{
    reveal_strlit("online");
    reveal_strlit("degraded");
    reveal_strlit("offline");
    assert(status_text(NodeStatus::Online) =~= "online"@);
    assert(status_text(NodeStatus::Degraded) =~= "degraded"@);
    assert(status_text(NodeStatus::Offline) =~= "offline"@);
    assert(status_text(NodeStatus::Online) != status_text(NodeStatus::Degraded)) by {
        assert(status_text(NodeStatus::Online).len() != status_text(NodeStatus::Degraded).len());
    }
    assert(status_text(NodeStatus::Online) != status_text(NodeStatus::Offline)) by {
        assert(status_text(NodeStatus::Online)[1] != status_text(NodeStatus::Offline)[1]);
    }
    assert(status_text(NodeStatus::Degraded) != status_text(NodeStatus::Offline)) by {
        assert(status_text(NodeStatus::Degraded).len() != status_text(NodeStatus::Offline).len());
    }
}

} // verus!
