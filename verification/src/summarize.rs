//! Summarization decisions: blank files are answered with a fixed sentinel
//! and never reach a backend, backend failures are absorbed into a failure
//! sentinel, and oversized content is split into fixed-size line chunks
//! that are summarized separately and then condensed.

use vstd::prelude::*;

use crate::text::{is_blank, str_is_blank};
use crate::tree::strs_model;

verus! {

/// The summary recorded for a file whose content is empty or whitespace.
pub open spec fn empty_sentinel() -> Seq<char> {
    "empty file"@
}

/// The summary recorded when a backend call fails in any way.
pub open spec fn failure_sentinel() -> Seq<char> {
    "summary generation failed"@
}

pub fn empty_file_sentinel() -> (r: String)
    ensures
        r@ == empty_sentinel(),
{
    "empty file".to_owned()
}

pub fn failed_sentinel() -> (r: String)
    ensures
        r@ == failure_sentinel(),
{
    "summary generation failed".to_owned()
}

/// A backend call is made exactly when the content is not blank.
pub fn needs_summarization(content: &str) -> (b: bool)
    ensures
        b == !is_blank(content@),
{
    !str_is_blank(content)
}

/// The summary recorded for a file given what the backend returned (or
/// `None` when it was never called or failed): blank files take the empty
/// sentinel, failures the failure sentinel, successes their own text.
pub fn resolve_summary(content: &str, backend: Option<String>) -> (s: String)
    ensures
        is_blank(content@) ==> s@ == empty_sentinel(),
        !is_blank(content@) && backend is None ==> s@ == failure_sentinel(),
        !is_blank(content@) && backend is Some ==> s@ == backend.unwrap()@,
{
    if str_is_blank(content) {
        empty_file_sentinel()
    } else {
        match backend {
            Some(t) => t,
            None => failed_sentinel(),
        }
    }
}

/// The index of the first line feed, or -1.
pub open spec fn first_newline(s: Seq<char>) -> int
    decreases s.len(),
{
    if s.len() == 0 {
        -1
    } else if s[0] == '\n' {
        0
    } else {
        let r = first_newline(s.drop_first());
        if r == -1 {
            -1
        } else {
            r + 1
        }
    }
}

proof fn lemma_first_newline_at(s: Seq<char>, i: int)
    requires
        0 <= i < s.len(),
        s[i] == '\n',
        forall|k: int| 0 <= k < i ==> s[k] != '\n',
    ensures
        first_newline(s) == i,
    decreases s.len(),
{
    if i > 0 {
        lemma_first_newline_at(s.drop_first(), i - 1);
    }
}

proof fn lemma_first_newline_none(s: Seq<char>)
    requires
        forall|k: int| 0 <= k < s.len() ==> s[k] != '\n',
    ensures
        first_newline(s) == -1,
    decreases s.len(),
{
    if s.len() > 0 {
        lemma_first_newline_none(s.drop_first());
    }
}

/// A carriage return preceding a line break is not part of the line.
pub open spec fn strip_cr(s: Seq<char>) -> Seq<char> {
    if s.len() > 0 && s.last() == '\r' {
        s.drop_last()
    } else {
        s
    }
}

/// The lines of a text: split at line feeds, a carriage return before each
/// break removed, and a final line ending optional.
pub open spec fn split_lines(s: Seq<char>) -> Seq<Seq<char>>
    decreases s.len(),
{
    if s.len() == 0 {
        Seq::empty()
    } else {
        let i = first_newline(s);
        if 0 <= i < s.len() {
            seq![strip_cr(s.subrange(0, i))] + split_lines(s.skip(i + 1))
        } else {
            seq![s]
        }
    }
}

pub fn split_lines_exec(s: &str) -> (r: Vec<String>)
    ensures
        strs_model(r@) == split_lines(s@),
{
    let len = s.unicode_len();
    let mut out: Vec<String> = Vec::new();
    let mut start: usize = 0;
    let mut i: usize = 0;
    proof {
        assert(strs_model(out@) =~= Seq::<Seq<char>>::empty());
        assert(s@.skip(0) =~= s@);
    }
    while i < len
        invariant
            start <= i <= len,
            len == s@.len(),
            forall|k: int| start <= k < i ==> s@[k] != '\n',
            split_lines(s@) == strs_model(out@) + split_lines(s@.skip(start as int)),
        decreases len - i,
    {
        if s.get_char(i) == '\n' {
            let mut end = i;
            if end > start && s.get_char(end - 1) == '\r' {
                end = end - 1;
            }
            let line = s.substring_char(start, end).to_owned();
            let ghost out0 = out@;
            out.push(line);
            proof {
                let tail = s@.skip(start as int);
                assert(tail[i - start] == '\n');
                lemma_first_newline_at(tail, i - start);
                assert(tail.subrange(0, i - start) =~= s@.subrange(start as int, i as int));
                assert(tail.skip(i - start + 1) =~= s@.skip(i as int + 1));
                assert(line@ =~= strip_cr(s@.subrange(start as int, i as int)));
                assert forall|t: int| 0 <= t < out@.len() implies strs_model(out@)[t] == (
                strs_model(out0) + seq![line@])[t] by {
                    if t < out0.len() {
                        assert(out@[t] == out0[t]);
                    }
                }
                assert(strs_model(out@) =~= strs_model(out0) + seq![line@]);
                assert(split_lines(tail) == seq![line@] + split_lines(s@.skip(i as int + 1)));
                assert((strs_model(out0) + seq![line@]) + split_lines(s@.skip(i as int + 1))
                    =~= strs_model(out0) + (seq![line@] + split_lines(s@.skip(i as int + 1))));
            }
            start = i + 1;
        }
        i = i + 1;
    }
    if start < len {
        let line = s.substring_char(start, len).to_owned();
        let ghost out0 = out@;
        out.push(line);
        proof {
            let tail = s@.skip(start as int);
            lemma_first_newline_none(tail);
            assert(line@ =~= tail);
            assert(split_lines(tail) == seq![tail]);
            assert forall|t: int| 0 <= t < out@.len() implies strs_model(out@)[t] == (strs_model(
                out0,
            ) + seq![line@])[t] by {
                if t < out0.len() {
                    assert(out@[t] == out0[t]);
                }
            }
            assert(strs_model(out@) =~= strs_model(out0) + seq![tail]);
        }
    } else {
        proof {
            assert(s@.skip(start as int) =~= Seq::<char>::empty());
            assert(strs_model(out@) + Seq::<Seq<char>>::empty() =~= strs_model(out@));
        }
    }
    out
}

/// Parts joined with a separator between neighbours.
pub open spec fn join_with(parts: Seq<Seq<char>>, sep: Seq<char>) -> Seq<char>
    decreases parts.len(),
{
    if parts.len() == 0 {
        Seq::empty()
    } else if parts.len() == 1 {
        parts[0]
    } else {
        parts[0] + sep + join_with(parts.drop_first(), sep)
    }
}

proof fn lemma_join_push(parts: Seq<Seq<char>>, sep: Seq<char>, x: Seq<char>)
    ensures
        join_with(parts.push(x), sep) == if parts.len() == 0 {
            x
        } else {
            join_with(parts, sep) + sep + x
        },
    decreases parts.len(),
{
    if parts.len() == 0 {
        assert(parts.push(x)[0] == x);
    } else {
        lemma_join_push(parts.drop_first(), sep, x);
        assert(parts.push(x).drop_first() =~= parts.drop_first().push(x));
        if parts.len() == 1 {
            assert(join_with(parts.push(x), sep) == parts[0] + sep + join_with(
                parts.drop_first().push(x),
                sep,
            ));
            assert(join_with(parts.drop_first().push(x), sep) == x);
        } else {
            assert((parts[0] + sep + join_with(parts.drop_first(), sep)) + sep + x =~= parts[0]
                + sep + (join_with(parts.drop_first(), sep) + sep + x));
        }
    }
}

pub open spec fn nl() -> Seq<char> {
    seq!['\n']
}

/// The lines grouped into chunks of at most `max` lines, each chunk joined
/// back with line feeds.
pub open spec fn chunks_of(lines: Seq<Seq<char>>, max: int) -> Seq<Seq<char>>
    decreases lines.len(),
{
    if lines.len() == 0 || max < 1 {
        Seq::empty()
    } else if lines.len() <= max {
        seq![join_with(lines, nl())]
    } else {
        seq![join_with(lines.take(max), nl())] + chunks_of(lines.skip(max), max)
    }
}

fn join_lines(lines: &Vec<String>, start: usize, end: usize) -> (r: String)
    requires
        start < end,
        end <= lines@.len(),
    ensures
        r@ == join_with(strs_model(lines@).subrange(start as int, end as int), nl()),
{
    let ghost seg = strs_model(lines@).subrange(start as int, end as int);
    let mut acc = lines[start].clone();
    proof {
        reveal_strlit("\n");
        assert("\n"@ =~= nl());
        assert(seg.subrange(0, 1) =~= seq![strs_model(lines@)[start as int]]);
        assert(join_with(seg.subrange(0, 1), nl()) == seg[0]);
    }
    let mut j: usize = start + 1;
    while j < end
        invariant
            start < j <= end,
            end <= lines@.len(),
            seg == strs_model(lines@).subrange(start as int, end as int),
            acc@ == join_with(seg.subrange(0, j - start), nl()),
        decreases end - j,
    {
        let ghost acc0 = acc@;
        acc.append("\n");
        acc.append(lines[j].as_str());
        proof {
            reveal_strlit("\n");
            assert("\n"@ =~= nl());
            let pre = seg.subrange(0, j - start);
            lemma_join_push(pre, nl(), seg[j - start]);
            assert(pre.push(seg[j - start]) =~= seg.subrange(0, j - start + 1));
            assert(seg[j - start] == strs_model(lines@)[j as int]);
            assert(acc@ =~= join_with(seg.subrange(0, j - start + 1), nl()));
        }
        j = j + 1;
    }
    proof {
        assert(seg.subrange(0, end - start) =~= seg);
    }
    acc
}

/// The content split into chunks of at most `max_lines` lines each.
pub fn split_chunks(content: &str, max_lines: usize) -> (r: Vec<String>)
    requires
        max_lines >= 1,
    ensures
        strs_model(r@) == chunks_of(split_lines(content@), max_lines as int),
{
    let lines = split_lines_exec(content);
    let ghost lm = strs_model(lines@);
    let n = lines.len();
    let mut out: Vec<String> = Vec::new();
    let mut start: usize = 0;
    proof {
        assert(strs_model(out@) =~= Seq::<Seq<char>>::empty());
        assert(lm.skip(0) =~= lm);
    }
    while start < n
        invariant
            start <= n,
            n == lines@.len(),
            lm == strs_model(lines@),
            max_lines >= 1,
            strs_model(out@) + chunks_of(lm.skip(start as int), max_lines as int) == chunks_of(
                lm,
                max_lines as int,
            ),
        decreases n - start,
    {
        let end = if n - start > max_lines {
            start + max_lines
        } else {
            n
        };
        let chunk = join_lines(&lines, start, end);
        let ghost out0 = out@;
        out.push(chunk);
        proof {
            let tail = lm.skip(start as int);
            assert forall|t: int| 0 <= t < out@.len() implies strs_model(out@)[t] == (strs_model(
                out0,
            ) + seq![chunk@])[t] by {
                if t < out0.len() {
                    assert(out@[t] == out0[t]);
                }
            }
            assert(strs_model(out@) =~= strs_model(out0) + seq![chunk@]);
            if n - start > max_lines {
                assert(tail.take(max_lines as int) =~= lm.subrange(
                    start as int,
                    start as int + max_lines as int,
                ));
                assert(tail.skip(max_lines as int) =~= lm.skip(start as int + max_lines as int));
                assert(chunks_of(tail, max_lines as int) == seq![chunk@] + chunks_of(
                    lm.skip(start as int + max_lines as int),
                    max_lines as int,
                ));
                assert((strs_model(out0) + seq![chunk@]) + chunks_of(
                    lm.skip(start as int + max_lines as int),
                    max_lines as int,
                ) =~= strs_model(out0) + (seq![chunk@] + chunks_of(
                    lm.skip(start as int + max_lines as int),
                    max_lines as int,
                )));
            } else {
                assert(tail.subrange(0, tail.len() as int) =~= tail);
                assert(chunks_of(tail, max_lines as int) == seq![chunk@]);
                assert(lm.skip(n as int) =~= Seq::<Seq<char>>::empty());
                assert((strs_model(out0) + seq![chunk@]) + Seq::<Seq<char>>::empty()
                    =~= strs_model(out0) + seq![chunk@]);
            }
        }
        start = end;
    }
    proof {
        assert(lm.skip(n as int) =~= Seq::<Seq<char>>::empty());
        assert(strs_model(out@) + Seq::<Seq<char>>::empty() =~= strs_model(out@));
    }
    out
}

/// The request text for one content chunk.
pub open spec fn chunk_prompt_spec(c: Seq<char>) -> Seq<char> {
    "SYSTEM:You are a software analysis engineer; describe concretely what the source code does, in about 50 words.\nUSER:"@
        + c + "\nASSISTANT"@
}

/// The request text condensing the per-chunk summaries.
pub open spec fn condense_prompt_spec(c: Seq<char>) -> Seq<char> {
    "SYSTEM:You are a software analysis engineer; you are condensing partial summaries into one, in about 150 words.\nUSER:"@
        + c + "\nASSISTANT"@
}

/// The request text for a single whole-file summary.
pub open spec fn summary_prompt_spec(c: Seq<char>) -> Seq<char> {
    "Write a short functional summary of the following code, in under 100 words, keeping the original variable names:\n"@
        + c
}

pub fn chunk_prompt(chunk: &str) -> (r: String)
    ensures
        r@ == chunk_prompt_spec(chunk@),
{
    let mut s =
        "SYSTEM:You are a software analysis engineer; describe concretely what the source code does, in about 50 words.\nUSER:".to_owned();
    s.append(chunk);
    s.append("\nASSISTANT");
    s
}

pub fn condense_prompt(joined: &str) -> (r: String)
    ensures
        r@ == condense_prompt_spec(joined@),
{
    let mut s =
        "SYSTEM:You are a software analysis engineer; you are condensing partial summaries into one, in about 150 words.\nUSER:".to_owned();
    s.append(joined);
    s.append("\nASSISTANT");
    s
}

pub fn summary_prompt(content: &str) -> (r: String)
    ensures
        r@ == summary_prompt_spec(content@),
{
    let mut s =
        "Write a short functional summary of the following code, in under 100 words, keeping the original variable names:\n".to_owned();
    s.append(content);
    s
}

/// What a completion reply's body denotes: `None` when it is not valid
/// JSON, `Some(None)` when valid but without a string `content` field,
/// `Some(Some(text))` otherwise.
pub uninterp spec fn completion_reply_of(s: Seq<char>) -> Option<Option<Seq<char>>>;

/// Relies on serde_json::from_str and serde_json::Value::get/as_str: the
/// parse of a reply body depends on the body text alone.
#[verifier::external_body]
fn parse_completion_reply(text: &str) -> (r: Option<Option<String>>)
    ensures
        match r {
            None => completion_reply_of(text@) is None,
            Some(None) => completion_reply_of(text@) == Some(Option::<Seq<char>>::None),
            Some(Some(c)) => completion_reply_of(text@) == Some(Some(c@)),
        },
{
    let v: serde_json::Value = match serde_json::from_str(text) {
        Ok(v) => v,
        Err(_) => return None,
    };
    match v.get("content").and_then(|c| c.as_str()) {
        Some(c) => Some(Some(c.to_string())),
        None => Some(None),
    }
}

/// What a chat reply's body denotes: the content of the first choice's
/// message, or `None` when the body is not valid JSON in that shape or
/// holds no choice.
pub uninterp spec fn chat_content_of(s: Seq<char>) -> Option<Seq<char>>;

/// Relies on serde_json::from_str and serde_json::Value::get/as_str: the
/// parse of a reply body depends on the body text alone.
#[verifier::external_body]
fn parse_chat_content(text: &str) -> (r: Option<String>)
    ensures
        match r {
            Some(c) => chat_content_of(text@) == Some(c@),
            None => chat_content_of(text@) is None,
        },
{
    let v: serde_json::Value = match serde_json::from_str(text) {
        Ok(v) => v,
        Err(_) => return None,
    };
    let c = v.get("choices")?.get(0)?.get("message")?.get("content")?.as_str()?;
    Some(c.to_string())
}

/// The content field of a completion reply, or `None` when the body does
/// not parse or carries none.
pub fn completion_reply_content(reply: &str) -> (r: Option<String>)
    ensures
        match r {
            Some(c) => completion_reply_of(reply@) == Some(Some(c@)),
            None => !(completion_reply_of(reply@) matches Some(Some(_))),
        },
{
    match parse_completion_reply(reply) {
        Some(Some(c)) => Some(c),
        _ => None,
    }
}

/// The content of a chat reply's first choice, or `None` when the body
/// does not carry one.
pub fn chat_reply_content(reply: &str) -> (r: Option<String>)
    ensures
        match r {
            Some(c) => chat_content_of(reply@) == Some(c@),
            None => chat_content_of(reply@) is None,
        },
{
    parse_chat_content(reply)
}

/// The summary for a file under the hosted chat backend, given the file's
/// content and the reply body (`None` when the request itself failed).
pub fn resolve_chat_summary(content: &str, reply: Option<String>) -> (s: String)
    ensures
        is_blank(content@) ==> s@ == empty_sentinel(),
        !is_blank(content@) ==> match reply {
            None => s@ == failure_sentinel(),
            Some(t) => match chat_content_of(t@) {
                Some(c) => s@ == c,
                None => s@ == failure_sentinel(),
            },
        },
{
    if str_is_blank(content) {
        empty_file_sentinel()
    } else {
        match reply {
            None => failed_sentinel(),
            Some(t) => match parse_chat_content(t.as_str()) {
                Some(c) => c,
                None => failed_sentinel(),
            },
        }
    }
}

/// One file's chunked summarization under the local completion backend:
/// the caller requests each pending prompt in turn, feeds the reply back,
/// and finally condenses the collected partial summaries.
pub struct ChunkSession {
    pub chunks: Vec<String>,
    pub next: usize,
    pub parts: Vec<String>,
    pub failed: bool,
}

impl ChunkSession {
    pub open spec fn wf(&self) -> bool {
        self.next <= self.chunks@.len()
    }

    /// Split the content into chunks of at most `max_lines` lines.
    pub fn new(content: &str, max_lines: usize) -> (s: ChunkSession)
        requires
            max_lines >= 1,
        ensures
            s.wf(),
            strs_model(s.chunks@) == chunks_of(split_lines(content@), max_lines as int),
            s.next == 0,
            s.parts@.len() == 0,
            !s.failed,
    {
        ChunkSession { chunks: split_chunks(content, max_lines), next: 0, parts: Vec::new(), failed: false }
    }

    /// The prompt for the next chunk, while one is pending.
    pub fn next_prompt(&self) -> (r: Option<String>)
        requires
            self.wf(),
        ensures
            match r {
                Some(p) => self.next < self.chunks@.len() && p@ == chunk_prompt_spec(
                    strs_model(self.chunks@)[self.next as int],
                ),
                None => self.next == self.chunks@.len(),
            },
    {
        if self.next < self.chunks.len() {
            proof {
                assert(strs_model(self.chunks@)[self.next as int] == self.chunks@[self.next as int]@);
            }
            Some(chunk_prompt(self.chunks[self.next].as_str()))
        } else {
            None
        }
    }

    /// Feed back the reply body for the pending chunk: its content is kept
    /// as a partial summary, a reply without content is skipped, and a
    /// body that does not parse fails the session.
    pub fn push_reply(&mut self, reply: &str)
        requires
            old(self).wf(),
            old(self).next < old(self).chunks@.len(),
        ensures
            final(self).wf(),
            final(self).chunks == old(self).chunks,
            final(self).next == old(self).next + 1,
            match completion_reply_of(reply@) {
                None => final(self).failed && final(self).parts == old(self).parts,
                Some(None) => final(self).failed == old(self).failed && final(self).parts == old(
                    self,
                ).parts,
                Some(Some(c)) => final(self).failed == old(self).failed && strs_model(
                    final(self).parts@,
                ) == strs_model(old(self).parts@).push(c),
            },
    {
        match parse_completion_reply(reply) {
            None => {
                self.failed = true;
            },
            Some(None) => {},
            Some(Some(c)) => {
                let ghost parts0 = self.parts@;
                let ghost cm = c@;
                self.parts.push(c);
                proof {
                    assert forall|t: int| 0 <= t < self.parts@.len() implies strs_model(
                        self.parts@,
                    )[t] == strs_model(parts0).push(cm)[t] by {
                        if t < parts0.len() {
                            assert(self.parts@[t] == parts0[t]);
                        }
                    }
                    assert(strs_model(self.parts@) =~= strs_model(parts0).push(cm));
                }
            },
        }
        let n = self.chunks.len();
        proof {
            assert(self.next < n);
        }
        self.next = self.next + 1;
    }

    /// The condensing prompt over the collected partial summaries, joined
    /// with single spaces, once every chunk has been answered.
    pub fn final_prompt(&self) -> (r: String)
        requires
            self.wf(),
            self.next == self.chunks@.len(),
        ensures
            r@ == condense_prompt_spec(join_with(strs_model(self.parts@), " "@)),
    {
        let n = self.parts.len();
        let mut acc = String::new();
        proof {
            assert(strs_model(self.parts@).subrange(0, 0) =~= Seq::<Seq<char>>::empty());
        }
        let mut j: usize = 0;
        while j < n
            invariant
                j <= n,
                n == self.parts@.len(),
                acc@ == join_with(strs_model(self.parts@).subrange(0, j as int), " "@),
            decreases n - j,
        {
            let ghost pm = strs_model(self.parts@);
            if j > 0 {
                acc.append(" ");
            }
            acc.append(self.parts[j].as_str());
            proof {
                let pre = pm.subrange(0, j as int);
                lemma_join_push(pre, " "@, pm[j as int]);
                assert(pre.push(pm[j as int]) =~= pm.subrange(0, j as int + 1));
                assert(pm[j as int] == self.parts@[j as int]@);
                if j == 0 {
                    assert(acc@ =~= pm[0]);
                    assert(join_with(pm.subrange(0, 1), " "@) == pm.subrange(0, 1)[0]);
                    assert(pm.subrange(0, 1)[0] == pm[0]);
                }
            }
            j = j + 1;
        }
        proof {
            assert(strs_model(self.parts@).subrange(0, n as int) =~= strs_model(self.parts@));
        }
        condense_prompt(acc.as_str())
    }

    /// The final summary from the condensing reply: its content, or `None`
    /// when the session failed earlier, the request failed, the body does
    /// not parse, or it has no content.
    pub fn finish(&self, reply: Option<String>) -> (r: Option<String>)
        ensures
            match r {
                Some(c) => {
                    &&& !self.failed
                    &&& reply is Some
                    &&& completion_reply_of(reply.unwrap()@) == Some(Some(c@))
                },
                None => self.failed || reply is None || !(completion_reply_of(reply.unwrap()@)
                    matches Some(Some(_))),
            },
    {
        if self.failed {
            return None;
        }
        match reply {
            None => None,
            Some(t) => match parse_completion_reply(t.as_str()) {
                Some(Some(c)) => Some(c),
                _ => None,
            },
        }
    }
}

} // verus!
