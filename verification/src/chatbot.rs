//! The decisions of the chatbots: where a user's saved session lives, which
//! cached session a user continues, what a failed reply turns into, and what
//! part of a session's history is shown.
//!
//! Talking to the language model and reading or writing session files happen
//! outside this module; these functions take and return plain values.

use vstd::prelude::*;
use lru::LruCache;
use crate::session_cache::{lru_capacity, lru_entries, lru_get_mut, lru_new, lru_push, moved_to_front, position_of};

verus! {

broadcast use vstd::seq_lib::group_seq_properties;

// ---------------------------------------------------------------------------
// Plain decisions
// ---------------------------------------------------------------------------

/// The text `.txt`.
pub open spec fn txt_suffix() -> Seq<char> {
    seq!['.', 't', 'x', 't']
}

/// The file a user's chat session is saved in: the user name followed by
/// `.txt`.
pub fn session_file_name(username: &str) -> (name: String)
    ensures
        name@ == username@ + txt_suffix(),
{
    let mut name = String::from_str(username);
    name.append(".txt");
    proof {
        reveal_strlit(".txt");
        assert(".txt"@ =~= txt_suffix());
    }
    name
}

/// The text answered when the model fails to reply.
pub open spec fn failure_text() -> Seq<char> {
    seq![
        'E', 'r', 'r', 'o', 'r', ' ', 'g', 'e', 'n', 'e', 'r', 'a', 't', 'i', 'n', 'g', ' ', 'r', 'e',
        's', 'p', 'o', 'n', 's', 'e'
    ]
}

/// What the user is answered: the model's reply, or "Error generating
/// response" when there is none.
pub fn response_text(reply: Option<String>) -> (text: String)
    ensures
        reply matches Some(r) ==> text@ == r@,
        reply is None ==> text@ == failure_text(),
{
    match reply {
        Some(r) => r,
        None => {
            let text = String::from_str("Error generating response");
            proof {
                reveal_strlit("Error generating response");
                assert("Error generating response"@ =~= failure_text());
            }
            text
        },
    }
}

/// Who wrote a message of a chat session.
#[derive(Clone, Copy, Debug, PartialEq, Eq, Structural)]
pub enum MessageRole {
    SystemPrompt,
    UserMessage,
    ModelAnswer,
}

/// A message of a chat session.
#[derive(Debug)]
pub struct ChatMessage {
    pub role: MessageRole,
    pub content: String,
}

/// The messages of a session, each content taken by its characters.
pub open spec fn messages_model(ms: Seq<ChatMessage>) -> Seq<(MessageRole, Seq<char>)> {
    ms.map_values(|m: ChatMessage| (m.role, m.content@))
}

/// The history shown to a user: the contents of all messages but the system
/// prompts, in order.
pub open spec fn shown_history(ms: Seq<(MessageRole, Seq<char>)>) -> Seq<Seq<char>>
    decreases ms.len(),
{
    if ms.len() == 0 {
        Seq::empty()
    } else {
        let before = shown_history(ms.drop_last());
        if ms.last().0 != MessageRole::SystemPrompt {
            before.push(ms.last().1)
        } else {
            before
        }
    }
}

/// The contents of a list of strings.
pub open spec fn strings_model(ss: Seq<String>) -> Seq<Seq<char>> {
    ss.map_values(|s: String| s@)
}

/// The history shown to a user: every message but the system prompts, in order.
pub fn visible_history(messages: &Vec<ChatMessage>) -> (history: Vec<String>)
    ensures
        strings_model(history@) == shown_history(messages_model(messages@)),
{
    let mut history: Vec<String> = Vec::new();
    for i in 0..messages.len()
        invariant
            strings_model(history@) == shown_history(messages_model(messages@).take(i as int)),
    {
        proof {
            assert(messages_model(messages@).take(i + 1).drop_last() =~= messages_model(messages@).take(i as int));
        }
        if messages[i].role != MessageRole::SystemPrompt {
            history.push(messages[i].content.clone());
            proof {
                assert(strings_model(history@) =~= shown_history(messages_model(messages@).take(i as int)).push(
                    messages@[i as int].content@,
                ));
            }
        }
    }
    proof {
        assert(messages_model(messages@).take(messages@.len() as int) =~= messages_model(messages@));
    }
    history
}

// ---------------------------------------------------------------------------
// The session cache
// ---------------------------------------------------------------------------

/// How many chat sessions stay cached.
pub const CACHE_CAPACITY: usize = 2;

/// No user name occurs twice.
pub open spec fn names_distinct(e: Seq<(Seq<char>, u64)>) -> bool {
    forall|i: int, j: int| 0 <= i < j < e.len() ==> e[i].0 != e[j].0
}

/// `position_of` finds the entry of a name, and finds none exactly when no entry
/// has that name.
pub proof fn lemma_position_of(e: Seq<(Seq<char>, u64)>, key: Seq<char>)
    ensures
        -1 <= position_of(e, key) < e.len(),
        position_of(e, key) >= 0 ==> e[position_of(e, key)].0 == key,
        position_of(e, key) < 0 <==> forall|i: int| 0 <= i < e.len() ==> #[trigger] e[i].0 != key,
    decreases e.len(),
{
    if e.len() > 0 && e[0].0 != key {
        let rest = e.subrange(1, e.len() as int);
        lemma_position_of(rest, key);
        if position_of(e, key) < 0 {
            assert forall|i: int| 0 <= i < e.len() implies #[trigger] e[i].0 != key by {
                if i > 0 {
                    assert(rest[i - 1] == e[i]);
                }
            }
        } else {
            assert(rest[position_of(rest, key)] == e[position_of(e, key)]);
        }
    }
}

proof fn lemma_front_distinct(e: Seq<(Seq<char>, u64)>, i: int)
    requires
        names_distinct(e),
        0 <= i < e.len(),
    ensures
        names_distinct(moved_to_front(e, i)),
        moved_to_front(e, i).len() == e.len(),
{
    let r = e.remove(i);
    let f = moved_to_front(e, i);
    assert forall|a: int, b: int| 0 <= a < b < f.len() implies f[a].0 != f[b].0 by {
        let ib = if b - 1 < i { b - 1 } else { b };
        assert(f[b] == e[ib]);
        if a == 0 {
            assert(f[a] == e[i]);
        } else {
            let ia = if a - 1 < i { a - 1 } else { a };
            assert(f[a] == e[ia]);
        }
    }
}

proof fn lemma_replace_distinct(e: Seq<(Seq<char>, u64)>, i: int, v: u64)
    requires
        names_distinct(e),
        0 <= i < e.len(),
    ensures
        names_distinct(seq![(e[i].0, v)] + e.remove(i)),
{
    let f = seq![(e[i].0, v)] + e.remove(i);
    assert forall|a: int, b: int| 0 <= a < b < f.len() implies f[a].0 != f[b].0 by {
        let ib = if b - 1 < i { b - 1 } else { b };
        assert(f[b] == e[ib]);
        if a > 0 {
            let ia = if a - 1 < i { a - 1 } else { a };
            assert(f[a] == e[ia]);
        }
    }
}

proof fn lemma_prepend_distinct(e: Seq<(Seq<char>, u64)>, key: Seq<char>, v: u64)
    requires
        names_distinct(e),
        forall|i: int| 0 <= i < e.len() ==> #[trigger] e[i].0 != key,
    ensures
        names_distinct(seq![(key, v)] + e),
        e.len() > 0 ==> names_distinct(seq![(key, v)] + e.drop_last()),
{
    let f = seq![(key, v)] + e;
    assert forall|a: int, b: int| 0 <= a < b < f.len() implies f[a].0 != f[b].0 by {
        assert(f[b] == e[b - 1]);
        if a > 0 {
            assert(f[a] == e[a - 1]);
        }
    }
    if e.len() > 0 {
        let g = seq![(key, v)] + e.drop_last();
        assert forall|a: int, b: int| 0 <= a < b < g.len() implies g[a].0 != g[b].0 by {
            assert(g[b] == e[b - 1]);
            if a > 0 {
                assert(g[a] == e[a - 1]);
            }
        }
    }
}

/// Whether a user's session is cached.
#[derive(Clone, Copy, Debug, PartialEq, Eq, Structural)]
pub enum SessionLookup {
    /// The user's session is cached under this number.
    Cached(u64),
    /// The user's session is not cached: start one, from the saved file if any.
    NotCached,
}

/// A session just placed in the cache.
#[derive(Clone, Copy, Debug, PartialEq, Eq, Structural)]
pub struct PlacedSession {
    /// The number the new session is cached under.
    pub session: u64,
    /// The session that left the cache to make room, if any.
    pub evicted: Option<u64>,
}

/// The caching chatbot's memory: the chat sessions of the two users who
/// chatted most recently, by user name. Each session is known by a number; the
/// sessions themselves are kept by the caller.
pub struct ChatbotV5 {
    cache: LruCache<String, u64>,
    next_session: u64,
}

impl ChatbotV5 {
    /// The cached sessions, most recently used first.
    pub closed spec fn sessions(&self) -> Seq<(Seq<char>, u64)> {
        lru_entries(self.cache)
    }

    /// The number the next new session gets.
    pub closed spec fn next_number(&self) -> u64 {
        self.next_session
    }

    /// At most [`CACHE_CAPACITY`] sessions are cached, one per user.
    pub closed spec fn wf(&self) -> bool {
        &&& lru_capacity(self.cache) == CACHE_CAPACITY
        &&& self.sessions().len() <= CACHE_CAPACITY
        &&& names_distinct(self.sessions())
    }

    /// A chatbot with no cached session.
    pub fn new() -> (bot: ChatbotV5)
        ensures
            bot.wf(),
            bot.sessions().len() <= CACHE_CAPACITY,
            bot.sessions() == Seq::<(Seq<char>, u64)>::empty(),
            bot.next_number() == 0,
    {
        ChatbotV5 { cache: lru_new(CACHE_CAPACITY), next_session: 0 }
    }

    /// Looks up `username`'s session. A cached session becomes the most
    /// recently used one.
    pub fn open_session(&mut self, username: &String) -> (found: SessionLookup)
        requires
            old(self).wf(),
        ensures
            final(self).wf(),
            final(self).sessions().len() <= CACHE_CAPACITY,
            final(self).next_number() == old(self).next_number(),
            position_of(old(self).sessions(), username@) < 0 ==> found == SessionLookup::NotCached
                && final(self).sessions() == old(self).sessions(),
            position_of(old(self).sessions(), username@) >= 0 ==> found == SessionLookup::Cached(
                old(self).sessions()[position_of(old(self).sessions(), username@)].1,
            ) && final(self).sessions() == moved_to_front(
                old(self).sessions(),
                position_of(old(self).sessions(), username@),
            ),
    {
        proof {
            lemma_position_of(self.sessions(), username@);
        }
        let found = lru_get_mut(&mut self.cache, username);
        proof {
            let i = position_of(old(self).sessions(), username@);
            if i >= 0 {
                lemma_front_distinct(old(self).sessions(), i);
            }
        }
        match found {
            Some(session) => SessionLookup::Cached(session),
            None => SessionLookup::NotCached,
        }
    }

    /// Caches a new session for `username` as the most recently used one. A
    /// session the user had cached is replaced; otherwise, with the cache full,
    /// the least recently used session leaves it. The session that left, if
    /// any, is reported.
    pub fn cache_new_session(&mut self, username: String) -> (placed: PlacedSession)
        requires
            old(self).wf(),
        ensures
            final(self).wf(),
            final(self).sessions().len() <= CACHE_CAPACITY,
            placed.session == old(self).next_number(),
            final(self).next_number() == old(self).next_number().wrapping_add(1),
            ({
                let old_sessions = old(self).sessions();
                let i = position_of(old_sessions, username@);
                if i >= 0 {
                    &&& final(self).sessions() == seq![(username@, placed.session)] + old_sessions.remove(i)
                    &&& placed.evicted == Some(old_sessions[i].1)
                } else if old_sessions.len() == CACHE_CAPACITY {
                    &&& final(self).sessions() == seq![(username@, placed.session)] + old_sessions.drop_last()
                    &&& placed.evicted == Some(old_sessions.last().1)
                } else {
                    &&& final(self).sessions() == seq![(username@, placed.session)] + old_sessions
                    &&& placed.evicted is None
                }
            }),
    {
        proof {
            lemma_position_of(self.sessions(), username@);
        }
        let session = self.next_session;
        let ghost name = username@;
        let displaced = lru_push(&mut self.cache, username, session);
        self.next_session = self.next_session.wrapping_add(1);
        proof {
            let old_sessions = old(self).sessions();
            let i = position_of(old_sessions, name);
            if i >= 0 {
                assert(old_sessions[i].0 == name);
                lemma_replace_distinct(old_sessions, i, session);
                assert(seq![(old_sessions[i].0, session)] == seq![(name, session)]);
            } else {
                lemma_prepend_distinct(old_sessions, name, session);
            }
        }
        let evicted = match displaced {
            Some(pair) => Some(pair.1),
            None => None,
        };
        PlacedSession { session, evicted }
    }
}

} // verus!
