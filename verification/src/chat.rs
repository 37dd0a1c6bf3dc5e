//! Chat: the user messages that carry chat, handed to the observers registered for them.

use vstd::prelude::*;

verus! {

/// The kinds of chat message.
#[derive(Clone, Copy, Debug, PartialEq, Eq)]
pub enum ChatKind {
    /// A game event shown in the chat.
    ChatEvent,
    /// A message that a player wrote to all.
    AllChatMessage,
    /// A chat wheel phrase.
    ChatWheel,
}

/// The user message type of chat events.
pub const DOTA_UM_CHAT_EVENT: i32 = 466;

/// The user message type of chat wheel phrases.
pub const DOTA_UM_CHAT_WHEEL: i32 = 501;

/// The user message type of chat messages.
pub const DOTA_UM_CHAT_MESSAGE: i32 = 612;

/// The kind of chat that a user message of the given type carries, if it carries chat.
pub open spec fn chat_kind(msg_type: i32) -> Option<ChatKind> {
    if msg_type == DOTA_UM_CHAT_EVENT {
        Some(ChatKind::ChatEvent)
    } else if msg_type == DOTA_UM_CHAT_MESSAGE {
        Some(ChatKind::AllChatMessage)
    } else if msg_type == DOTA_UM_CHAT_WHEEL {
        Some(ChatKind::ChatWheel)
    } else {
        None
    }
}

/// What is told of chat: one method for each kind of chat message. An observer accepts a
/// message with `Ok` or refuses it with an error.
pub trait ChatObserver: Sized {
    /// A chat message, decoded.
    type Message;

    /// Why an observer refuses a message.
    type Error;

    /// Whether the observer's method for messages of the kind `kind` can take the
    /// observer from `self` to `after` with the answer `answer` to the message `msg`. It
    /// is for the observer to say; of one that does not say, nothing is known, and every
    /// answer counts as one it can give.
    open spec fn answers(
        &self,
        kind: ChatKind,
        msg: &Self::Message,
        after: &Self,
        answer: Result<(), Self::Error>,
    ) -> bool {
        true
    }

    fn on_chat_event(&mut self, msg: &Self::Message) -> (answer: Result<(), Self::Error>)
        ensures
            old(self).answers(ChatKind::ChatEvent, msg, final(self), answer),
    ;

    fn on_all_chat_message(&mut self, msg: &Self::Message) -> (answer: Result<(), Self::Error>)
        ensures
            old(self).answers(ChatKind::AllChatMessage, msg, final(self), answer),
    ;

    fn on_chat_wheel(&mut self, msg: &Self::Message) -> (answer: Result<(), Self::Error>)
        ensures
            old(self).answers(ChatKind::ChatWheel, msg, final(self), answer),
    ;
}

/// Whether a round of telling ended at the observer `i`, which refused with `e`: the
/// observers before it were told and accepted, it was told and refused, and those after
/// it were not told and are as they were.
pub open spec fn refused_at<O: ChatObserver>(
    before: Seq<O>,
    after: Seq<O>,
    kind: ChatKind,
    msg: &O::Message,
    i: int,
    e: O::Error,
) -> bool {
    &&& 0 <= i < before.len()
    &&& forall|j: int|
        0 <= j < i ==> before[j].answers(kind, msg, &#[trigger] after[j], Ok(()))
    &&& before[i].answers(kind, msg, &after[i], Err(e))
    &&& forall|j: int| i < j < before.len() ==> #[trigger] after[j] == before[j]
}

/// Whether a round of telling the message `msg` of the kind `kind` takes the observers
/// from `before` to `after` with the result `res`: either every observer was told and
/// accepted, or the round ended at the first that refused, whose refusal is the result.
pub open spec fn round<O: ChatObserver>(
    before: Seq<O>,
    after: Seq<O>,
    kind: ChatKind,
    msg: &O::Message,
    res: Result<(), O::Error>,
) -> bool {
    &&& after.len() == before.len()
    &&& match res {
        Ok(_) => forall|j: int|
            0 <= j < before.len() ==> before[j].answers(kind, msg, &#[trigger] after[j], Ok(())),
        Err(e) => exists|i: int| refused_at(before, after, kind, msg, i, e),
    }
}

/// Whether each of the observers has but one answer to the message, and is but one
/// observer afterwards.
pub open spec fn single_minded<O: ChatObserver>(
    observers: Seq<O>,
    kind: ChatKind,
    msg: &O::Message,
) -> bool {
    forall|j: int, a: O, x: Result<(), O::Error>, b: O, y: Result<(), O::Error>|
        0 <= j < observers.len() && #[trigger] observers[j].answers(kind, msg, &a, x)
            && #[trigger] observers[j].answers(kind, msg, &b, y) ==> a == b && x == y
}

/// Two rounds that tell the same message to the same observers agree, where each
/// observer has but one answer to the message: they leave the same observers and give
/// the same result.
pub proof fn lemma_rounds_agree<O: ChatObserver>(
    before: Seq<O>,
    kind: ChatKind,
    msg: &O::Message,
    first: Seq<O>,
    first_res: Result<(), O::Error>,
    second: Seq<O>,
    second_res: Result<(), O::Error>,
)
    requires
        single_minded(before, kind, msg),
        round(before, first, kind, msg, first_res),
        round(before, second, kind, msg, second_res),
    ensures
        first == second,
        first_res == second_res,
{
    match (first_res, second_res) {
        (Ok(u), Ok(v)) => {
            assert(u == v);
            assert forall|j: int| 0 <= j < before.len() implies first[j] == second[j] by {
                assert(before[j].answers(kind, msg, &first[j], Ok(())));
                assert(before[j].answers(kind, msg, &second[j], Ok(())));
            }
        },
        (Ok(_), Err(e)) => {
            let i = choose|i: int| refused_at(before, second, kind, msg, i, e);
            assert(before[i].answers(kind, msg, &first[i], Ok(())));
            assert(before[i].answers(kind, msg, &second[i], Err(e)));
        },
        (Err(e), Ok(_)) => {
            let i = choose|i: int| refused_at(before, first, kind, msg, i, e);
            assert(before[i].answers(kind, msg, &second[i], Ok(())));
            assert(before[i].answers(kind, msg, &first[i], Err(e)));
        },
        (Err(e), Err(f)) => {
            let i = choose|i: int| refused_at(before, first, kind, msg, i, e);
            let k = choose|k: int| refused_at(before, second, kind, msg, k, f);
            assert(before[i].answers(kind, msg, &first[i], Err(e)));
            assert(before[k].answers(kind, msg, &second[k], Err(f)));
            if i < k {
                assert(before[i].answers(kind, msg, &second[i], Ok(())));
            }
            if k < i {
                assert(before[k].answers(kind, msg, &first[k], Ok(())));
            }
            assert(i == k);
            assert(Err::<(), O::Error>(e) == Err::<(), O::Error>(f));
            assert forall|j: int| 0 <= j < before.len() implies first[j] == second[j] by {
                if j < i {
                    assert(before[j].answers(kind, msg, &first[j], Ok(())));
                    assert(before[j].answers(kind, msg, &second[j], Ok(())));
                }
            }
        },
    }
    assert(first =~= second);
}

/// A round in which no observer can refuse the message is accepted.
pub proof fn lemma_round_of_accepting<O: ChatObserver>(
    before: Seq<O>,
    after: Seq<O>,
    kind: ChatKind,
    msg: &O::Message,
    res: Result<(), O::Error>,
)
    requires
        round(before, after, kind, msg, res),
        forall|j: int, a: O, x: Result<(), O::Error>|
            0 <= j < before.len() && #[trigger] before[j].answers(kind, msg, &a, x) ==> x is Ok,
    ensures
        res is Ok,
{
    if let Err(e) = res {
        let i = choose|i: int| refused_at(before, after, kind, msg, i, e);
        assert(before[i].answers(kind, msg, &after[i], Err(e)));
    }
}

/// The observers of chat, in the order in which they were registered.
pub struct Chat<O: ChatObserver> {
    observers: Vec<O>,
}

impl<O: ChatObserver> Chat<O> {
    /// The observers, in the order in which they were registered.
    pub closed spec fn spec_observers(&self) -> Seq<O> {
        self.observers@
    }

    /// A chat without observers.
    pub fn new() -> (chat: Chat<O>)
        ensures
            chat.spec_observers() == Seq::<O>::empty(),
    {
        Chat { observers: Vec::new() }
    }

    /// Registers an observer after those already registered.
    pub fn register_observer(&mut self, obs: O)
        ensures
            final(self).spec_observers() == old(self).spec_observers().push(obs),
    {
        self.observers.push(obs);
    }

    /// The observers, in the order in which they were registered.
    pub fn observers(&self) -> (observers: &Vec<O>)
        ensures
            observers@ == self.spec_observers(),
    {
        &self.observers
    }

    /// The kind of chat that a user message of the given type carries, if it carries chat.
    pub fn kind_of(msg_type: i32) -> (kind: Option<ChatKind>)
        ensures
            kind == chat_kind(msg_type),
    {
        if msg_type == DOTA_UM_CHAT_EVENT {
            Some(ChatKind::ChatEvent)
        } else if msg_type == DOTA_UM_CHAT_MESSAGE {
            Some(ChatKind::AllChatMessage)
        } else if msg_type == DOTA_UM_CHAT_WHEEL {
            Some(ChatKind::ChatWheel)
        } else {
            None
        }
    }

    /// Hands a chat message of the given kind to the observers, one after the other in
    /// the order in which they were registered, until one refuses it; its refusal is the
    /// result. The observers that come after the one that refused are not told.
    pub fn on_dota_user_message(&mut self, kind: ChatKind, msg: &O::Message) -> (res: Result<
        (),
        O::Error,
    >)
        ensures
            old(self).spec_observers().len() == 0 ==> res is Ok,
            round(old(self).spec_observers(), final(self).spec_observers(), kind, msg, res),
    {
        let mut i: usize = 0;
        while i < self.observers.len()
            invariant
                self.observers@.len() == old(self).observers@.len(),
                i <= self.observers@.len(),
                forall|j: int|
                    0 <= j < i ==> old(self).observers@[j].answers(
                        kind,
                        msg,
                        &#[trigger] self.observers@[j],
                        Ok(()),
                    ),
                forall|j: int|
                    i <= j < self.observers@.len() ==> #[trigger] self.observers@[j] == old(
                        self,
                    ).observers@[j],
            decreases self.observers@.len() - i,
        {
            let ghost before = self.observers@;
            let answer: Result<(), O::Error> = match kind {
                ChatKind::ChatEvent => self.observers[i].on_chat_event(msg),
                ChatKind::AllChatMessage => self.observers[i].on_all_chat_message(msg),
                ChatKind::ChatWheel => self.observers[i].on_chat_wheel(msg),
            };
            assert(before[i as int].answers(kind, msg, &self.observers@[i as int], answer));
            if Self::refused(&answer) {
                assert(refused_at(
                    old(self).observers@,
                    self.observers@,
                    kind,
                    msg,
                    i as int,
                    answer->Err_0,
                ));
                return answer;
            }
            assert(answer == Ok::<(), O::Error>(answer->Ok_0));
            i += 1;
        }
        Ok(())
    }

    /// Whether an observer's answer ends the round: it does when the observer refused.
    pub fn refused(answer: &Result<(), O::Error>) -> (stop: bool)
        ensures
            stop == answer is Err,
    {
        answer.is_err()
    }
}

impl<O: ChatObserver> Default for Chat<O> {
    /// A chat without observers.
    fn default() -> (chat: Chat<O>)
        ensures
            chat.spec_observers() == Seq::<O>::empty(),
    {
        Chat::new()
    }
}

} // verus!
