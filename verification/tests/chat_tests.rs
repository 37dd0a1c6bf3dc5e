use d2_stampede::chat::{
    Chat, ChatKind, ChatObserver, DOTA_UM_CHAT_EVENT, DOTA_UM_CHAT_MESSAGE, DOTA_UM_CHAT_WHEEL,
};
use d2_stampede_protobufs::EDotaUserMessages;
use std::cell::RefCell;
use std::rc::Rc;

struct Recorder {
    name: u8,
    log: Rc<RefCell<Vec<(u8, ChatKind, Vec<u8>)>>>,
    refuse: bool,
}

impl ChatObserver for Recorder {
    type Message = Vec<u8>;
    type Error = u8;

    fn on_chat_event(&mut self, msg: &Vec<u8>) -> Result<(), u8> {
        self.log.borrow_mut().push((self.name, ChatKind::ChatEvent, msg.to_vec()));
        if self.refuse {
            Err(self.name)
        } else {
            Ok(())
        }
    }

    fn on_all_chat_message(&mut self, msg: &Vec<u8>) -> Result<(), u8> {
        self.log.borrow_mut().push((self.name, ChatKind::AllChatMessage, msg.to_vec()));
        if self.refuse {
            Err(self.name)
        } else {
            Ok(())
        }
    }

    fn on_chat_wheel(&mut self, msg: &Vec<u8>) -> Result<(), u8> {
        self.log.borrow_mut().push((self.name, ChatKind::ChatWheel, msg.to_vec()));
        Ok(())
    }
}

struct Silent;

impl ChatObserver for Silent {
    type Message = Vec<u8>;
    type Error = u8;

    fn on_chat_event(&mut self, _msg: &Vec<u8>) -> Result<(), u8> {
        Ok(())
    }

    fn on_all_chat_message(&mut self, _msg: &Vec<u8>) -> Result<(), u8> {
        Ok(())
    }

    fn on_chat_wheel(&mut self, _msg: &Vec<u8>) -> Result<(), u8> {
        Ok(())
    }
}

fn recorders(refusing: &[bool]) -> (Chat<Recorder>, Rc<RefCell<Vec<(u8, ChatKind, Vec<u8>)>>>) {
    let log = Rc::new(RefCell::new(Vec::new()));
    let mut chat = Chat::new();
    for (i, refuse) in refusing.iter().enumerate() {
        chat.register_observer(Recorder { name: i as u8, log: log.clone(), refuse: *refuse });
    }
    (chat, log)
}

#[test]
fn the_user_message_types_that_carry_chat() {
    assert_eq!(DOTA_UM_CHAT_EVENT, EDotaUserMessages::DotaUmChatEvent as i32);
    assert_eq!(DOTA_UM_CHAT_MESSAGE, EDotaUserMessages::DotaUmChatMessage as i32);
    assert_eq!(DOTA_UM_CHAT_WHEEL, EDotaUserMessages::DotaUmChatWheel as i32);
    assert_eq!(Chat::<Silent>::kind_of(466), Some(ChatKind::ChatEvent));
    assert_eq!(Chat::<Silent>::kind_of(612), Some(ChatKind::AllChatMessage));
    assert_eq!(Chat::<Silent>::kind_of(501), Some(ChatKind::ChatWheel));
    assert_eq!(Chat::<Silent>::kind_of(465), None);
    assert_eq!(Chat::<Silent>::kind_of(0), None);
    assert_eq!(Chat::<Silent>::kind_of(-466), None);
}

#[test]
fn observers_are_kept_in_the_order_of_registration() {
    let (chat, _) = recorders(&[false, true, false]);
    let names: Vec<u8> = chat.observers().iter().map(|o| o.name).collect();
    assert_eq!(names, vec![0, 1, 2]);
    let fresh: Chat<Silent> = Chat::default();
    assert!(fresh.observers().is_empty());
}

#[test]
fn chat_goes_to_every_observer_in_order() {
    let (mut chat, log) = recorders(&[false, false]);
    assert_eq!(chat.on_dota_user_message(ChatKind::ChatEvent, &vec![1, 2]), Ok(()));
    assert_eq!(chat.on_dota_user_message(ChatKind::AllChatMessage, &vec![3]), Ok(()));
    assert_eq!(
        *log.borrow(),
        vec![
            (0, ChatKind::ChatEvent, vec![1, 2]),
            (1, ChatKind::ChatEvent, vec![1, 2]),
            (0, ChatKind::AllChatMessage, vec![3]),
            (1, ChatKind::AllChatMessage, vec![3]),
        ]
    );
}

#[test]
fn the_first_refusal_ends_the_round() {
    let (mut chat, log) = recorders(&[false, true, true]);
    assert_eq!(chat.on_dota_user_message(ChatKind::ChatEvent, &vec![9]), Err(1));
    assert_eq!(
        *log.borrow(),
        vec![(0, ChatKind::ChatEvent, vec![9]), (1, ChatKind::ChatEvent, vec![9])]
    );
    assert_eq!(chat.observers().len(), 3);
}

#[test]
fn each_kind_goes_to_its_own_method() {
    let (mut chat, log) = recorders(&[true, true]);
    assert_eq!(chat.on_dota_user_message(ChatKind::ChatWheel, &vec![1]), Ok(()));
    assert_eq!(
        *log.borrow(),
        vec![(0, ChatKind::ChatWheel, vec![1]), (1, ChatKind::ChatWheel, vec![1])]
    );
    let mut silent: Chat<Silent> = Chat::new();
    silent.register_observer(Silent);
    assert_eq!(silent.on_dota_user_message(ChatKind::ChatEvent, &vec![]), Ok(()));
    assert_eq!(silent.on_dota_user_message(ChatKind::AllChatMessage, &vec![]), Ok(()));
}

#[test]
fn a_chat_without_observers_accepts() {
    let mut chat: Chat<Recorder> = Chat::new();
    assert_eq!(chat.on_dota_user_message(ChatKind::ChatEvent, &vec![1]), Ok(()));
    assert_eq!(chat.on_dota_user_message(ChatKind::ChatWheel, &vec![1]), Ok(()));
}

#[test]
fn a_refusal_is_what_ends_a_round() {
    assert!(Chat::<Silent>::refused(&Err(3)));
    assert!(!Chat::<Silent>::refused(&Ok(())));
}
