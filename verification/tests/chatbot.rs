use coursework::chatbot::{
    response_text, session_file_name, visible_history, ChatMessage, ChatbotV5, MessageRole, PlacedSession,
    SessionLookup,
};

fn msg(role: MessageRole, text: &str) -> ChatMessage {
    ChatMessage { role, content: text.to_string() }
}

#[test]
fn session_files_are_named_after_users() {
    assert_eq!(session_file_name("alice"), "alice.txt");
    assert_eq!(session_file_name(""), ".txt");
}

#[test]
fn failed_replies_become_an_apology() {
    assert_eq!(response_text(Some("Arr!".to_string())), "Arr!");
    assert_eq!(response_text(None), "Error generating response");
}

#[test]
fn history_hides_system_prompts() {
    let ms = vec![
        msg(MessageRole::SystemPrompt, "act like a pirate"),
        msg(MessageRole::UserMessage, "hi"),
        msg(MessageRole::ModelAnswer, "ahoy"),
        msg(MessageRole::SystemPrompt, "again"),
        msg(MessageRole::UserMessage, "bye"),
    ];
    assert_eq!(visible_history(&ms), vec!["hi".to_string(), "ahoy".to_string(), "bye".to_string()]);
    assert!(visible_history(&vec![]).is_empty());
}

#[test]
fn cached_sessions_are_found_again() {
    let mut bot = ChatbotV5::new();
    let alice = "alice".to_string();
    assert_eq!(bot.open_session(&alice), SessionLookup::NotCached);
    assert_eq!(bot.cache_new_session(alice.clone()), PlacedSession { session: 0, evicted: None });
    assert_eq!(bot.open_session(&alice), SessionLookup::Cached(0));
    assert_eq!(bot.cache_new_session("bob".to_string()), PlacedSession { session: 1, evicted: None });
    assert_eq!(bot.open_session(&"bob".to_string()), SessionLookup::Cached(1));
}

#[test]
fn the_least_recently_used_session_leaves_first() {
    let mut bot = ChatbotV5::new();
    bot.cache_new_session("alice".to_string());
    bot.cache_new_session("bob".to_string());
    // alice chats again, so bob is now the least recently used
    assert_eq!(bot.open_session(&"alice".to_string()), SessionLookup::Cached(0));
    assert_eq!(bot.cache_new_session("carol".to_string()), PlacedSession { session: 2, evicted: Some(1) });
    assert_eq!(bot.open_session(&"bob".to_string()), SessionLookup::NotCached);
    assert_eq!(bot.open_session(&"alice".to_string()), SessionLookup::Cached(0));
    assert_eq!(bot.open_session(&"carol".to_string()), SessionLookup::Cached(2));
}

#[test]
fn recaching_a_user_replaces_the_session() {
    let mut bot = ChatbotV5::new();
    bot.cache_new_session("alice".to_string());
    bot.cache_new_session("bob".to_string());
    assert_eq!(bot.cache_new_session("alice".to_string()), PlacedSession { session: 2, evicted: Some(0) });
    assert_eq!(bot.open_session(&"alice".to_string()), SessionLookup::Cached(2));
    assert_eq!(bot.open_session(&"bob".to_string()), SessionLookup::Cached(1));
}
