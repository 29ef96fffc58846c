use vstd::prelude::*;

verus! {

/// A message addressed to one satellite.
#[derive(Debug)]
pub struct Message {
    pub to: u64,
    pub content: String,
}

/// A store-and-forward queue of messages.
#[derive(Debug)]
pub struct Mailbox {
    pub messages: Vec<Message>,
}

/// A satellite, known by its identifier.
#[derive(Debug)]
pub struct CubeSat {
    pub id: u64,
}

impl Mailbox {
    /// Queues a message.
    pub fn post(&mut self, msg: Message)
        ensures
            final(self).messages@ == old(self).messages@.push(msg),
    {
        self.messages.push(msg);
    }

    /// Hands the earliest message addressed to `recipient` out of the
    /// queue, or nothing when none is waiting.
    pub fn deliver(&mut self, recipient: &CubeSat) -> (r: Option<Message>)
        ensures
            match r {
                Some(msg) => {
                    &&& msg.to == recipient.id
                    &&& exists|i: int| {
                        &&& 0 <= i < old(self).messages@.len()
                        &&& old(self).messages@[i].to == recipient.id
                        &&& (forall|j: int| 0 <= j < i
                            ==> (#[trigger] old(self).messages@[j]).to != recipient.id)
                        &&& final(self).messages@ == old(self).messages@.remove(i)
                        &&& msg == old(self).messages@[i]
                    }
                },
                None => final(self).messages@ == old(self).messages@ && forall|j: int|
                    0 <= j < old(self).messages@.len()
                        ==> (#[trigger] old(self).messages@[j]).to != recipient.id,
            },
    {
        let mut i: usize = 0;
        while i < self.messages.len()
            invariant
                i <= self.messages@.len(),
                self.messages@ == old(self).messages@,
                forall|j: int| 0 <= j < i
                    ==> (#[trigger] old(self).messages@[j]).to != recipient.id,
            decreases self.messages@.len() - i,
        {
            if self.messages[i].to == recipient.id {
                let msg = self.messages.remove(i);
                return Some(msg);
            }
            i = i + 1;
        }
        None
    }
}

impl CubeSat {
    /// Receives the earliest message waiting for this satellite.
    pub fn recv(&self, mailbox: &mut Mailbox) -> (r: Option<Message>)
        ensures
            match r {
                Some(msg) => msg.to == self.id,
                None => final(mailbox).messages@ == old(mailbox).messages@,
            },
    {
        mailbox.deliver(self)
    }
}

/// The identifiers of the deployed satellites.
pub fn fetch_sat_ids() -> (r: Vec<u64>)
    ensures
        r@ =~= seq![1u64, 2u64, 3u64],
{
    let mut r: Vec<u64> = Vec::new();
    r.push(1);
    r.push(2);
    r.push(3);
    r
}

/// A value of a type that is copied bit for bit when handed away.
#[derive(Clone, Copy, Debug)]
pub struct Demo {
    pub a: i32,
}

/// Takes a copy of its argument and lets it go out of scope.
pub fn use_value(_val: Demo) {
}

} // verus!
