//! The main screen's state and how the messages of the background work
//! change it.

use vstd::prelude::*;
use vstd::string::*;
use crate::blob::{Blob, Location};
use crate::container::{
    last_match, law_arrival_from_other_side_syncs, law_merge_effect, lemma_merge_into_empty,
    merge_all, merge_effect, ContainerView, CurrentContainer,
};

verus! {

/// A result of background work.
pub enum Message {
    /// The names of the account's containers.
    Containers(Vec<String>),
    /// Blobs listed for a container, from one location.
    Blobs { container: String, blobs: Vec<Blob>, location: Location },
    /// A blob together with its bytes, to be shown.
    BlobWithBytes(Blob),
}

/// What the main screen shows.
pub struct MainState {
    pub containers: Vec<String>,
    pub current_container: Option<CurrentContainer>,
    pub displayed_blob: Option<Blob>,
}

pub struct MainStateView {
    pub containers: Seq<String>,
    pub current: Option<ContainerView>,
    pub displayed: Option<Blob>,
}

impl View for MainState {
    type V = MainStateView;

    open spec fn view(&self) -> MainStateView {
        MainStateView {
            containers: self.containers@,
            current: match self.current_container {
                Some(c) => Some(c@),
                None => None,
            },
            displayed: self.displayed_blob,
        }
    }
}

/// The effect of one message: a container list replaces the list; blobs for
/// the container on screen are merged into it, and blobs for any other
/// container are disregarded; a blob with bytes becomes the one shown.
pub open spec fn message_effect(s: MainStateView, msg: Message) -> MainStateView {
    match msg {
        Message::Containers(names) => MainStateView { containers: names@, ..s },
        Message::Blobs { container, blobs, location } => {
            match s.current {
                Some(c) => {
                    if c.name == container@ {
                        MainStateView {
                            current: Some(
                                ContainerView {
                                    name: c.name,
                                    blobs: merge_all(c.blobs, c.blobs.len() as int, blobs@),
                                },
                            ),
                            ..s
                        }
                    } else {
                        s
                    }
                },
                None => s,
            }
        },
        Message::BlobWithBytes(blob) => MainStateView { displayed: Some(blob), ..s },
    }
}

/// The effect of messages taken in the order they arrived.
pub open spec fn messages_effect(s: MainStateView, msgs: Seq<Message>) -> MainStateView
    decreases msgs.len(),
{
    if msgs.len() == 0 {
        s
    } else {
        messages_effect(message_effect(s, msgs[0]), msgs.drop_first())
    }
}

/// The state after opening container `name`.
pub open spec fn switched(s: MainStateView, name: Seq<char>) -> MainStateView {
    MainStateView {
        containers: s.containers,
        current: Some(ContainerView { name, blobs: Seq::empty() }),
        displayed: None,
    }
}

/// Opening a container and then receiving a listing for it shows exactly
/// that listing, in order.
pub proof fn law_listing_after_switch(s: MainStateView, name: String, blobs: Vec<Blob>, location: Location)
    ensures
        message_effect(
            switched(s, name@),
            Message::Blobs { container: name, blobs, location },
        ).current == Some(ContainerView { name: name@, blobs: blobs@ }),
{
    lemma_merge_into_empty(blobs@);
}

/// A listing for the container on screen is merged into it, whichever side
/// it comes from: the blobs that were there stay in place with only their
/// location changed, the arrivals with new digests are appended, and nothing
/// else on the screen changes.
pub proof fn law_listing_merges(s: MainStateView, name: String, blobs: Vec<Blob>, location: Location)
    requires
        s.current is Some,
        s.current->0.name == name@,
    ensures
        ({
            let c = s.current->0;
            let r = message_effect(s, Message::Blobs { container: name, blobs, location });
            &&& r.current is Some
            &&& r.current->0.name == c.name
            &&& r.current->0.blobs == merge_all(c.blobs, c.blobs.len() as int, blobs@)
            &&& merge_effect(c.blobs, blobs@, r.current->0.blobs)
            &&& r.current->0.blobs.len() >= c.blobs.len()
            &&& r.containers == s.containers
            &&& r.displayed == s.displayed
        }),
{
    law_merge_effect(s.current->0.blobs, blobs@);
}

/// The side a listing comes from does not change what it does to the screen.
pub proof fn law_listing_side_irrelevant(
    s: MainStateView,
    name: String,
    blobs: Vec<Blob>,
    l1: Location,
    l2: Location,
)
    ensures
        message_effect(s, Message::Blobs { container: name, blobs, location: l1 })
            == message_effect(s, Message::Blobs { container: name, blobs, location: l2 }),
{
}

/// On screen, a blob already listed on one side becomes `Synced` when a blob
/// with its digest arrives from the other side.
pub proof fn law_listing_syncs_both_sides(
    s: MainStateView,
    name: String,
    blobs: Vec<Blob>,
    location: Location,
    i: int,
    k: int,
)
    requires
        s.current is Some,
        s.current->0.name == name@,
        0 <= i < s.current->0.blobs.len(),
        0 <= k < blobs@.len(),
        last_match(s.current->0.blobs, s.current->0.blobs.len() as int, blobs@[k].md5@) == i,
        blobs@[k].location != s.current->0.blobs[i].location,
    ensures
        message_effect(s, Message::Blobs { container: name, blobs, location }).current->0.blobs[i].location
            == Location::Synced,
{
    law_arrival_from_other_side_syncs(s.current->0.blobs, blobs@, i, k);
}

/// A blob received with its bytes is the one shown, whatever was shown
/// before; nothing else changes.
pub proof fn law_blob_with_bytes_shown(s: MainStateView, blob: Blob)
    ensures
        message_effect(s, Message::BlobWithBytes(blob)).displayed == Some(blob),
        message_effect(s, Message::BlobWithBytes(blob)).containers == s.containers,
        message_effect(s, Message::BlobWithBytes(blob)).current == s.current,
{
}

/// A container list replaces the one shown; nothing else changes.
pub proof fn law_containers_replaced(s: MainStateView, names: Vec<String>)
    ensures
        message_effect(s, Message::Containers(names)).containers == names@,
        message_effect(s, Message::Containers(names)).current == s.current,
        message_effect(s, Message::Containers(names)).displayed == s.displayed,
{
}

/// Messages are applied one after the other: applying `a` then `b` is
/// applying `a + b`.
pub proof fn law_messages_in_order(s: MainStateView, a: Seq<Message>, b: Seq<Message>)
    ensures
        messages_effect(s, a + b) == messages_effect(messages_effect(s, a), b),
    decreases a.len(),
{
    if a.len() == 0 {
        assert(a + b =~= b);
    } else {
        assert((a + b)[0] == a[0]);
        assert((a + b).drop_first() =~= a.drop_first() + b);
        law_messages_in_order(message_effect(s, a[0]), a.drop_first(), b);
    }
}

/// Every message counts: the effect of some messages followed by one more is
/// that message applied to the effect of the others.
pub proof fn law_last_message_applied(s: MainStateView, msgs: Seq<Message>, m: Message)
    ensures
        messages_effect(s, msgs.push(m)) == message_effect(messages_effect(s, msgs), m),
{
    law_messages_in_order(s, msgs, seq![m]);
    assert(msgs.push(m) =~= msgs + seq![m]);
    let t = messages_effect(s, msgs);
    assert(seq![m].drop_first() =~= Seq::<Message>::empty());
    assert(messages_effect(t, seq![m]) == messages_effect(message_effect(t, m), seq![m].drop_first()));
}

/// A listing for a container other than the one on screen changes nothing.
pub proof fn law_other_listing_ignored(s: MainStateView, name: String, blobs: Vec<Blob>, location: Location)
    requires
        !(s.current matches Some(c) && c.name == name@),
    ensures
        message_effect(s, Message::Blobs { container: name, blobs, location }) == s,
{
}

/// The address under which the shown blob's image is loaded:
/// `bytes://<container>/<blob>`.
pub open spec fn preview_uri_of(container: Seq<char>, blob: Seq<char>) -> Seq<char> {
    "bytes://"@ + container + "/"@ + blob
}

impl MainState {
    /// The state of a freshly opened account: nothing listed, nothing shown.
    pub fn new() -> (r: MainState)
        ensures
            r@ == (MainStateView { containers: Seq::empty(), current: None, displayed: None }),
    {
        MainState { containers: Vec::new(), current_container: None, displayed_blob: None }
    }

    /// Applies one message.
    pub fn apply_message(&mut self, msg: Message)
        ensures
            final(self)@ == message_effect(old(self)@, msg),
    {
        match msg {
            Message::Containers(names) => self.show_containers(names),
            Message::Blobs { container, blobs, location: _ } => self.merge_listing(container, blobs),
            Message::BlobWithBytes(blob) => self.show_blob(blob),
        }
    }

    fn show_containers(&mut self, names: Vec<String>)
        ensures
            final(self)@ == (MainStateView { containers: names@, ..old(self)@ }),
    {
        self.containers = names;
    }

    fn merge_listing(&mut self, container: String, blobs: Vec<Blob>)
        ensures
            final(self)@ == message_effect(
                old(self)@,
                Message::Blobs { container, blobs, location: Location::Remote },
            ),
    {
        let taken = self.current_container.take();
        match taken {
            Some(mut current) => {
                let same = *current.name() == container;
                if same {
                    current.insert_new_blobs(blobs);
                }
                self.current_container = Some(current);
            },
            None => {},
        }
    }

    fn show_blob(&mut self, blob: Blob)
        ensures
            final(self)@ == (MainStateView { displayed: Some(blob), ..old(self)@ }),
    {
        self.displayed_blob = Some(blob);
    }

    /// The address of the preview image: there is one while a container is
    /// open and the blob shown has its bytes.
    pub fn preview_uri(&self) -> (r: Option<String>)
        ensures
            r is Some <==> (self@.current is Some && self@.displayed is Some
                && self@.displayed->0.bytes is Some),
            r matches Some(uri) ==> uri@ == preview_uri_of(
                self@.current->0.name,
                self@.displayed->0.name@,
            ),
    {
        match (&self.displayed_blob, &self.current_container) {
            (Some(blob), Some(container)) => {
                if blob.bytes.is_some() {
                    let mut uri = String::from_str("bytes://");
                    uri.append(container.name().as_str());
                    uri.append("/");
                    uri.append(blob.name.as_str());
                    Some(uri)
                } else {
                    None
                }
            },
            _ => None,
        }
    }

    /// Opens a container: it becomes the one on screen, with no blobs yet,
    /// and no blob is shown.
    pub fn switch_to_container(&mut self, container: &str)
        ensures
            final(self)@ == switched(old(self)@, container@),
    {
        self.displayed_blob = None;
        self.current_container = Some(CurrentContainer::new(container.to_owned()));
    }
}

/// Applies the messages that arrived since the last frame, in order.
pub fn poll_for_messages(state: &mut MainState, messages: Vec<Message>)
    ensures
        final(state)@ == messages_effect(old(state)@, messages@),
{
    let mut pending = messages;
    while pending.len() > 0
        invariant
            messages_effect(state@, pending@) == messages_effect(old(state)@, messages@),
        decreases pending.len(),
    {
        let ghost arriving = pending@;
        let msg = pending.remove(0);
        assert(pending@ =~= arriving.drop_first());
        state.apply_message(msg);
    }
}

} // verus!
