//! The chat-side logic that does not touch the network: shaping a
//! message list into the request contents the remote model expects,
//! extracting the reply text from a parsed response, and picking the
//! payload lines out of a server-sent-events chunk.

use vstd::prelude::*;

use crate::text::{chars_vec, seq_views, split_lines, split_lines_spec, str_eq, string_from_chars};

verus! {

/// One chat message as the caller stores it: a role tag and the text.
pub struct ChatMessage {
    pub role: String,
    pub content: String,
}

#[verifier::ext_equal]
pub struct ChatMessageV {
    pub role: Seq<char>,
    pub content: Seq<char>,
}

impl View for ChatMessage {
    type V = ChatMessageV;

    open spec fn view(&self) -> ChatMessageV {
        ChatMessageV { role: self.role@, content: self.content@ }
    }
}

/// One streamed piece of a reply: its text and whether the stream ended.
pub struct StreamChunk {
    pub text: String,
    pub done: bool,
}

#[verifier::ext_equal]
pub struct StreamChunkV {
    pub text: Seq<char>,
    pub done: bool,
}

impl View for StreamChunk {
    type V = StreamChunkV;

    open spec fn view(&self) -> StreamChunkV {
        StreamChunkV { text: self.text@, done: self.done }
    }
}

/// One part of a request content block.
pub struct Part {
    pub text: String,
}

/// One content block of the request: a role and its parts.
pub struct Content {
    pub role: String,
    pub parts: Vec<Part>,
}

#[verifier::ext_equal]
pub struct ContentV {
    pub role: Seq<char>,
    pub parts: Seq<Seq<char>>,
}

pub open spec fn part_texts(ps: Seq<Part>) -> Seq<Seq<char>> {
    ps.map_values(|p: Part| p.text@)
}

impl View for Content {
    type V = ContentV;

    open spec fn view(&self) -> ContentV {
        ContentV { role: self.role@, parts: part_texts(self.parts@) }
    }
}

/// Any role other than `user` is sent as `model`.
pub open spec fn normalized_role(r: Seq<char>) -> Seq<char> {
    if r == "user"@ {
        "user"@
    } else {
        "model"@
    }
}

pub open spec fn content_of_message(m: ChatMessageV) -> ContentV {
    ContentV { role: normalized_role(m.role), parts: seq![m.content] }
}

pub open spec fn message_contents(ms: Seq<ChatMessageV>) -> Seq<ContentV> {
    ms.map_values(|m: ChatMessageV| content_of_message(m))
}

pub open spec fn system_prompt_text(prompt: Seq<char>) -> Seq<char> {
    "[System Instructions]\n"@ + prompt + "\n\n[End System Instructions]"@
}

/// A non-empty system prompt is sent as a leading user block followed by
/// a fixed model acknowledgement; an empty prompt adds nothing.
pub open spec fn system_preamble(prompt: Seq<char>) -> Seq<ContentV> {
    if prompt.len() == 0 {
        Seq::empty()
    } else {
        seq![
            ContentV { role: "user"@, parts: seq![system_prompt_text(prompt)] },
            ContentV {
                role: "model"@,
                parts: seq!["I understand. I'll follow these instructions."@],
            },
        ]
    }
}

pub open spec fn build_contents_spec(ms: Seq<ChatMessageV>, prompt: Seq<char>) -> Seq<ContentV> {
    system_preamble(prompt) + message_contents(ms)
}

/// Shape a message list into request contents: the optional system
/// preamble, then one single-part block per message with its role
/// normalized.
pub fn build_contents(messages: Vec<ChatMessage>, system_prompt: &str) -> (r: Vec<Content>)
    ensures
        seq_views(r@) == build_contents_spec(seq_views(messages@), system_prompt@),
{
    let mut contents: Vec<Content> = Vec::new();
    if !system_prompt.is_empty() {
        let mut text = String::from_str("[System Instructions]\n");
        text.append(system_prompt);
        text.append("\n\n[End System Instructions]");
        let first = Content { role: String::from_str("user"), parts: vec![Part { text }] };
        let ack = Content {
            role: String::from_str("model"),
            parts: vec![Part { text: String::from_str("I understand. I'll follow these instructions.") }],
        };
        proof {
            assert(first@ =~= system_preamble(system_prompt@)[0]);
            assert(ack@ =~= system_preamble(system_prompt@)[1]);
        }
        contents.push(first);
        contents.push(ack);
    }
    proof {
        assert(seq_views(contents@) =~= system_preamble(system_prompt@));
        assert(seq_views(messages@).take(0) =~= Seq::<ChatMessageV>::empty());
        assert(message_contents(Seq::<ChatMessageV>::empty()) =~= Seq::<ContentV>::empty());
        assert(seq_views(contents@) =~= system_preamble(system_prompt@) + message_contents(
            seq_views(messages@).take(0),
        ));
    }
    let mut i: usize = 0;
    while i < messages.len()
        invariant
            i <= messages.len(),
            seq_views(contents@) =~= system_preamble(system_prompt@) + message_contents(
                seq_views(messages@).take(i as int),
            ),
        decreases messages.len() - i,
    {
        let ghost pre = seq_views(contents@);
        let role = if str_eq(messages[i].role.as_str(), "user") {
            String::from_str("user")
        } else {
            String::from_str("model")
        };
        let c = Content { role, parts: vec![Part { text: messages[i].content.clone() }] };
        proof {
            assert(c@ =~= content_of_message(messages@[i as int]@));
        }
        contents.push(c);
        proof {
            assert(seq_views(contents@) =~= pre.push(content_of_message(messages@[i as int]@)));
            assert(seq_views(messages@).take(i as int + 1) =~= seq_views(messages@).take(
                i as int,
            ).push(messages@[i as int]@));
            assert(message_contents(seq_views(messages@).take(i as int + 1)) =~= message_contents(
                seq_views(messages@).take(i as int),
            ).push(content_of_message(messages@[i as int]@)));
        }
        i = i + 1;
    }
    proof {
        assert(seq_views(messages@).take(messages@.len() as int) =~= seq_views(messages@));
    }
    contents
}

/// One parsed reply candidate: its part texts in order.
pub struct ReplyCandidate {
    pub texts: Vec<String>,
}

impl View for ReplyCandidate {
    type V = Seq<Seq<char>>;

    open spec fn view(&self) -> Seq<Seq<char>> {
        seq_views(self.texts@)
    }
}

/// A parsed model response: its candidates and an optional error
/// message.
pub struct ChatReply {
    pub candidates: Vec<ReplyCandidate>,
    pub error: Option<String>,
}

#[verifier::ext_equal]
pub struct ChatReplyV {
    pub candidates: Seq<Seq<Seq<char>>>,
    pub error: Option<Seq<char>>,
}

impl View for ChatReply {
    type V = ChatReplyV;

    open spec fn view(&self) -> ChatReplyV {
        ChatReplyV {
            candidates: seq_views(self.candidates@),
            error: match self.error {
                Option::Some(m) => Option::Some(m@),
                Option::None => Option::None,
            },
        }
    }
}

/// What a reply yields: the reported error if there is one, else the
/// first text of the first candidate, else a fixed no-response message.
pub open spec fn extract_reply_spec(r: ChatReplyV) -> Result<Seq<char>, Seq<char>> {
    match r.error {
        Option::Some(m) => Result::Err("Gemini API error: "@ + m),
        Option::None => {
            if r.candidates.len() > 0 && r.candidates[0].len() > 0 {
                Result::Ok(r.candidates[0][0])
            } else {
                Result::Err("No response from Gemini"@)
            }
        },
    }
}

pub open spec fn result_view(r: Result<String, String>) -> Result<Seq<char>, Seq<char>> {
    match r {
        Result::Ok(t) => Result::Ok(t@),
        Result::Err(e) => Result::Err(e@),
    }
}

pub fn extract_reply(reply: ChatReply) -> (r: Result<String, String>)
    ensures
        result_view(r) == extract_reply_spec(reply@),
{
    let ghost rv = reply@;
    match reply.error {
        Some(m) => {
            let mut e = String::from_str("Gemini API error: ");
            e.append(m.as_str());
            Err(e)
        },
        None => {
            if reply.candidates.len() > 0 {
                let c = &reply.candidates[0];
                if c.texts.len() > 0 {
                    return Ok(c.texts[0].clone());
                }
            }
            Err(String::from_str("No response from Gemini"))
        },
    }
}

pub open spec fn strip_cr(l: Seq<char>) -> Seq<char> {
    if l.len() > 0 && l.last() == '\r' {
        l.drop_last()
    } else {
        l
    }
}

pub open spec fn is_data_line(l: Seq<char>) -> bool {
    l.len() >= 6 && l.subrange(0, 6) == "data: "@
}

pub open spec fn payloads_of_lines(ls: Seq<Seq<char>>) -> Seq<Seq<char>>
    decreases ls.len(),
{
    if ls.len() == 0 {
        Seq::empty()
    } else {
        let l = strip_cr(ls[0]);
        let rest = payloads_of_lines(ls.drop_first());
        if is_data_line(l) {
            seq![l.skip(6)] + rest
        } else {
            rest
        }
    }
}

/// The event payloads in a streamed chunk: every line carrying the
/// `data: ` prefix, with the prefix (and a trailing carriage return)
/// removed, in order.
pub open spec fn sse_payloads_spec(s: Seq<char>) -> Seq<Seq<char>> {
    payloads_of_lines(split_lines_spec(s))
}

pub fn sse_data_payloads(chunk: &str) -> (r: Vec<String>)
    ensures
        seq_views(r@) == sse_payloads_spec(chunk@),
{
    let v = chars_vec(chunk);
    let lines = split_lines(&v);
    let ghost lv = seq_views(lines@);
    let mut out: Vec<String> = Vec::new();
    let mut i: usize = 0;
    proof {
        assert(lv.skip(0) =~= lv);
    }
    while i < lines.len()
        invariant
            i <= lines.len(),
            lv == seq_views(lines@),
            lv.len() == lines.len(),
            payloads_of_lines(lv) == seq_views(out@) + payloads_of_lines(lv.skip(i as int)),
        decreases lines.len() - i,
    {
        let ghost old_out = seq_views(out@);
        proof {
            assert(lv.skip(i as int)[0] == lv[i as int]);
            assert(lv.skip(i as int).drop_first() =~= lv.skip(i as int + 1));
            assert(lv[i as int] == lines@[i as int]@);
        }
        let ghost l = strip_cr(lv[i as int]);
        let ln = lines[i].len();
        let el: usize = if ln > 0 && lines[i][ln - 1] == '\r' {
            ln - 1
        } else {
            ln
        };
        proof {
            if ln > 0 && lines@[i as int]@[ln - 1] == '\r' {
                assert(l =~= lines@[i as int]@.take(el as int));
            } else {
                assert(l =~= lines@[i as int]@.take(el as int));
            }
        }
        let line = &lines[i];
        let is_data = el >= 6 && line[0] == 'd' && line[1] == 'a' && line[2] == 't' && line[3]
            == 'a' && line[4] == ':' && line[5] == ' ';
        proof {
            reveal_strlit("data: ");
            assert("data: "@.len() == 6);
            if is_data {
                assert forall|k: int| 0 <= k < 6 implies l.subrange(0, 6)[k] == "data: "@[k] by {
                    assert(l[k] == line@[k]);
                }
                assert(l.subrange(0, 6) =~= "data: "@);
                assert(is_data_line(l));
            } else {
                if is_data_line(l) {
                    assert(l.len() == el);
                    assert(el >= 6);
                    assert forall|k: int| 0 <= k < 6 implies line@[k] == "data: "@[k] by {
                        assert(l.subrange(0, 6)[k] == l[k]);
                        assert(l[k] == line@.take(el as int)[k]);
                    }
                    assert(line@[0] == 'd' && line@[1] == 'a' && line@[2] == 't' && line@[3] == 'a'
                        && line@[4] == ':' && line@[5] == ' ');
                    assert(false);
                }
            }
        }
        if is_data {
            let mut payload: Vec<char> = Vec::new();
            let mut j: usize = 6;
            while j < el
                invariant
                    6 <= j <= el,
                    el <= line@.len(),
                    line@ == lv[i as int],
                    i < lines.len(),
                    payload@ =~= line@.subrange(6, j as int),
                decreases el - j,
            {
                payload.push(line[j]);
                proof {
                    assert(payload@ =~= line@.subrange(6, j as int + 1));
                }
                j = j + 1;
            }
            proof {
                assert(payload@ =~= l.skip(6));
            }
            let s = string_from_chars(&payload);
            out.push(s);
            proof {
                assert(seq_views(out@) =~= old_out.push(l.skip(6)));
                assert(payloads_of_lines(lv.skip(i as int)) == seq![l.skip(6)]
                    + payloads_of_lines(lv.skip(i as int + 1)));
                assert(seq_views(out@) + payloads_of_lines(lv.skip(i as int + 1)) =~= old_out + (
                seq![l.skip(6)] + payloads_of_lines(lv.skip(i as int + 1))));
            }
        } else {
            proof {
                assert(payloads_of_lines(lv.skip(i as int)) == payloads_of_lines(
                    lv.skip(i as int + 1),
                ));
            }
        }
        i = i + 1;
    }
    proof {
        assert(lv.skip(lv.len() as int) =~= Seq::<Seq<char>>::empty());
        assert(seq_views(out@) + Seq::<Seq<char>>::empty() =~= seq_views(out@));
    }
    out
}

} // verus!
