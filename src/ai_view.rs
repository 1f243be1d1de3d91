//! The state of the AI chat view: the exchanged messages, whether a reply
//! is streaming in, and the error that ended a request; and the Markdown
//! transcript that the view displays.
use vstd::prelude::*;
use vstd::string::{StrSliceExecFns, StringExecFns};

verus! {

/// Who wrote a chat message.
#[derive(Debug, Clone, Copy, PartialEq, Eq, Structural)]
pub enum ChatRole {
    User,
    Assistant,
}

/// One chat message.
#[derive(Debug)]
pub struct ChatEntry {
    pub role: ChatRole,
    pub content: String,
}

pub open spec fn entry_views(v: Seq<ChatEntry>) -> Seq<(ChatRole, Seq<char>)> {
    v.map_values(|e: ChatEntry| (e.role, e.content@))
}

/// The view's state.
pub struct AiResponseView {
    messages: Vec<ChatEntry>,
    is_streaming: bool,
    error: Option<String>,
}

/// The Markdown for message `i`: a blank line before all but the first,
/// the author in bold, and the text; while streaming, the last message shows
/// a placeholder when still empty and a cursor otherwise.
pub open spec fn entry_text(m: Seq<(ChatRole, Seq<char>)>, i: int, streaming: bool) -> Seq<char> {
    let sep = if i > 0 {
        "\n\n"@
    } else {
        Seq::empty()
    };
    let role = if m[i].0 == ChatRole::User {
        "**User:** "@
    } else {
        "**Assistant:** "@
    };
    let last = i == m.len() - 1;
    let body = if last && streaming && m[i].1.len() == 0 {
        "_Thinking..._"@
    } else if last && streaming {
        m[i].1 + " \u{258c}"@
    } else {
        m[i].1
    };
    sep + role + body
}

/// The Markdown for the first `n` messages.
pub open spec fn transcript_upto(m: Seq<(ChatRole, Seq<char>)>, n: int, streaming: bool) -> Seq<char>
    decreases n,
{
    if n <= 0 {
        Seq::empty()
    } else {
        transcript_upto(m, n - 1, streaming) + entry_text(m, n - 1, streaming)
    }
}

impl AiResponseView {
    /// The messages, oldest first, as (author, text).
    pub closed spec fn messages_spec(&self) -> Seq<(ChatRole, Seq<char>)> {
        entry_views(self.messages@)
    }

    pub closed spec fn streaming_spec(&self) -> bool {
        self.is_streaming
    }

    pub closed spec fn error_spec(&self) -> Option<Seq<char>> {
        match self.error {
            Some(e) => Some(e@),
            None => None,
        }
    }

    /// The last message is the assistant's reply in progress.
    pub open spec fn wf(&self) -> bool {
        self.messages_spec().len() > 0 && self.messages_spec().last().0 == ChatRole::Assistant
    }

    /// A view for a first query: the query, and an empty reply streaming in.
    pub fn new(query: String) -> (r: Self)
        ensures
            r.wf(),
            r.messages_spec() == seq![(ChatRole::User, query@), (ChatRole::Assistant, Seq::<char>::empty())],
            r.streaming_spec(),
            r.error_spec() is None,
    {
        let ghost q = query@;
        let reply = String::new();
        let messages = vec![
            ChatEntry { role: ChatRole::User, content: query },
            ChatEntry { role: ChatRole::Assistant, content: reply },
        ];
        let r = AiResponseView { messages, is_streaming: true, error: None };
        assert(r.messages_spec() =~= seq![(ChatRole::User, q), (ChatRole::Assistant, Seq::<char>::empty())]);
        r
    }

    /// Appends a streamed token to the reply in progress.
    pub fn append_token(&mut self, token: &str)
        requires
            old(self).wf(),
        ensures
            final(self).wf(),
            final(self).messages_spec() == old(self).messages_spec().update(
                old(self).messages_spec().len() - 1,
                (ChatRole::Assistant, old(self).messages_spec().last().1 + token@),
            ),
            final(self).streaming_spec() == old(self).streaming_spec(),
            final(self).error_spec() == old(self).error_spec(),
    {
        let ghost before = self.messages_spec();
        let mut last = self.messages.pop().unwrap();
        last.content.append(token);
        self.messages.push(last);
        assert(self.messages_spec() =~= before.update(
            before.len() - 1,
            (ChatRole::Assistant, before.last().1 + token@),
        ));
    }

    /// Marks the reply as complete.
    pub fn finish_streaming(&mut self)
        requires
            old(self).wf(),
        ensures
            final(self).wf(),
            final(self).messages_spec() == old(self).messages_spec(),
            !final(self).streaming_spec(),
            final(self).error_spec() == old(self).error_spec(),
    {
        self.is_streaming = false;
    }

    /// Adds a follow-up query and an empty reply for it.
    pub fn add_user_message(&mut self, message: String)
        requires
            old(self).wf(),
        ensures
            final(self).wf(),
            final(self).messages_spec() == old(self).messages_spec().push(
                (ChatRole::User, message@),
            ).push((ChatRole::Assistant, Seq::<char>::empty())),
            final(self).streaming_spec() == old(self).streaming_spec(),
            final(self).error_spec() == old(self).error_spec(),
    {
        let ghost before = self.messages_spec();
        let ghost m = message@;
        self.messages.push(ChatEntry { role: ChatRole::User, content: message });
        self.messages.push(ChatEntry { role: ChatRole::Assistant, content: String::new() });
        assert(self.messages_spec() =~= before.push((ChatRole::User, m)).push(
            (ChatRole::Assistant, Seq::<char>::empty()),
        ));
    }

    /// Records the error that ended the request; streaming stops.
    pub fn set_error(&mut self, error: String)
        requires
            old(self).wf(),
        ensures
            final(self).wf(),
            final(self).messages_spec() == old(self).messages_spec(),
            !final(self).streaming_spec(),
            final(self).error_spec() == Some(error@),
    {
        self.error = Some(error);
        self.is_streaming = false;
    }

    /// The messages, oldest first.
    pub fn messages(&self) -> (r: &Vec<ChatEntry>)
        ensures
            entry_views(r@) == self.messages_spec(),
    {
        &self.messages
    }

    pub fn is_streaming(&self) -> (r: bool)
        ensures
            r == self.streaming_spec(),
    {
        self.is_streaming
    }

    pub fn has_error(&self) -> (r: bool)
        ensures
            r == self.error_spec() is Some,
    {
        self.error.is_some()
    }

    /// The error message, if a request failed.
    pub fn error(&self) -> (r: Option<&String>)
        ensures
            r matches Some(e) ==> self.error_spec() == Some(e@),
            r is None ==> self.error_spec() is None,
    {
        match &self.error {
            Some(e) => Some(e),
            None => None,
        }
    }

    /// The Markdown transcript of the conversation that the view shows when
    /// there is no error.
    pub fn transcript(&self) -> (r: String)
        ensures
            r@ == transcript_upto(
                self.messages_spec(),
                self.messages_spec().len() as int,
                self.streaming_spec(),
            ),
    {
        let ghost m = self.messages_spec();
        let n = self.messages.len();
        let mut out = String::new();
        let mut i: usize = 0;
        while i < n
            invariant
                n == self.messages@.len(),
                m == self.messages_spec(),
                i <= n,
                out@ == transcript_upto(m, i as int, self.is_streaming),
            decreases n - i,
        {
            if i > 0 {
                out.append("\n\n");
            }
            let e = &self.messages[i];
            match e.role {
                ChatRole::User => out.append("**User:** "),
                ChatRole::Assistant => out.append("**Assistant:** "),
            }
            let last = i == n - 1;
            if last && self.is_streaming && e.content.as_str().unicode_len() == 0 {
                out.append("_Thinking..._");
            } else {
                out.append(e.content.as_str());
                if self.is_streaming && last {
                    out.append(" \u{258c}");
                }
            }
            assert(m[i as int] == (e.role, e.content@));
            assert(out@ =~= transcript_upto(m, i + 1, self.is_streaming));
            i = i + 1;
        }
        out
    }
}

} // verus!
