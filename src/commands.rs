//! The messages that peers exchange, and their wire encoding.
//!
//! Every message is one tagged value: a tag byte naming the variant, then the
//! variant's fields in declaration order (see [`crate::wire`]).  `decode`
//! accepts exactly the byte strings that `encode` produces.
use vstd::prelude::*;
use crate::wire::{
    bytes_at, decode_all, encode_all, lemma_bytes_at_concat, lemma_enc_injective, Wire,
};

verus! {

/// One unit of player intent, produced by the application once per tick.
/// The scheduler never looks inside: it is carried as opaque bytes.
#[derive(Clone, Debug)]
pub struct Command {
    /// The application's own encoding of the command.
    pub data: Vec<u8>,
}

impl DeepView for Command {
    type V = Seq<u8>;

    open spec fn deep_view(&self) -> Seq<u8> {
        self.data@
    }
}

impl Wire for Command {
    open spec fn spec_enc(v: Seq<u8>) -> Seq<u8> {
        <Vec<u8> as Wire>::spec_enc(v)
    }

    proof fn lemma_enc_nonempty(v: Seq<u8>) {
    }

    proof fn lemma_enc_unique(s: Seq<u8>, pos: int, v1: Seq<u8>, v2: Seq<u8>) {
        <Vec<u8> as Wire>::lemma_enc_unique(s, pos, v1, v2);
    }

    fn write(&self, out: &mut Vec<u8>) {
        self.data.write(out);
        proof {
            assert(self.data.deep_view() =~= self.data@);
        }
    }

    fn read(b: &[u8], pos: usize) -> (r: Option<(Command, usize)>) {
        let r = <Vec<u8> as Wire>::read(b, pos);
        proof {
            assert forall|v: Seq<u8>| #[trigger] bytes_at(b@, pos as int, Self::spec_enc(v)) implies
                bytes_at(b@, pos as int, <Vec<u8> as Wire>::spec_enc(v)) by {
            }
        }
        match r {
            Some((data, q)) => {
                proof {
                    assert(data.deep_view() =~= data@);
                }
                Some((Command { data }, q))
            },
            None => None,
        }
    }
}

/// Why a player left the session.
#[derive(Clone, Copy, Debug, PartialEq, Eq, Structural)]
pub enum DisconnectReason {
    Quit,
    Timeout,
    Kicked,
    Error,
}

impl DeepView for DisconnectReason {
    type V = DisconnectReason;

    open spec fn deep_view(&self) -> DisconnectReason {
        *self
    }
}

/// The byte that stands for each reason on the wire.
pub open spec fn disconnect_code(r: DisconnectReason) -> u8 {
    match r {
        DisconnectReason::Quit => 0,
        DisconnectReason::Timeout => 1,
        DisconnectReason::Kicked => 2,
        DisconnectReason::Error => 3,
    }
}

impl Wire for DisconnectReason {
    open spec fn spec_enc(v: DisconnectReason) -> Seq<u8> {
        seq![disconnect_code(v)]
    }

    proof fn lemma_enc_nonempty(v: DisconnectReason) {
    }

    proof fn lemma_enc_unique(s: Seq<u8>, pos: int, v1: DisconnectReason, v2: DisconnectReason) {
        assert(s.subrange(pos, pos + 1)[0] == s[pos]);
        assert(Self::spec_enc(v1)[0] == disconnect_code(v1));
        assert(Self::spec_enc(v2)[0] == disconnect_code(v2));
    }

    fn write(&self, out: &mut Vec<u8>) {
        let code: u8 = match self {
            DisconnectReason::Quit => 0,
            DisconnectReason::Timeout => 1,
            DisconnectReason::Kicked => 2,
            DisconnectReason::Error => 3,
        };
        out.push(code);
        proof {
            assert(out@ =~= old(out)@ + Self::spec_enc(*self));
        }
    }

    fn read(b: &[u8], pos: usize) -> (r: Option<(DisconnectReason, usize)>) {
        if pos >= b.len() {
            return None;
        }
        let code = b[pos];
        let ghost one = b@.subrange(pos as int, pos + 1);
        proof {
            assert(one[0] == code);
            assert forall|x: DisconnectReason| #[trigger] bytes_at(b@, pos as int, Self::spec_enc(x))
                implies disconnect_code(x) == code by {
                assert(Self::spec_enc(x)[0] == disconnect_code(x));
            }
        }
        let reason = if code == 0 {
            DisconnectReason::Quit
        } else if code == 1 {
            DisconnectReason::Timeout
        } else if code == 2 {
            DisconnectReason::Kicked
        } else if code == 3 {
            DisconnectReason::Error
        } else {
            return None;
        };
        proof {
            assert(one =~= Self::spec_enc(reason));
        }
        Some((reason, pos + 1))
    }
}

/// Who a chat line is addressed to.
#[derive(Clone, Copy, Debug, PartialEq, Eq, Structural)]
pub enum ChatTarget {
    All,
    Team,
    Player(u8),
}

impl DeepView for ChatTarget {
    type V = ChatTarget;

    open spec fn deep_view(&self) -> ChatTarget {
        *self
    }
}

impl Wire for ChatTarget {
    open spec fn spec_enc(v: ChatTarget) -> Seq<u8> {
        match v {
            ChatTarget::All => seq![0u8],
            ChatTarget::Team => seq![1u8],
            ChatTarget::Player(p) => seq![2u8, p],
        }
    }

    proof fn lemma_enc_nonempty(v: ChatTarget) {
    }

    proof fn lemma_enc_unique(s: Seq<u8>, pos: int, v1: ChatTarget, v2: ChatTarget) {
        assert(s.subrange(pos, pos + Self::spec_enc(v1).len())[0] == s[pos]);
        assert(s.subrange(pos, pos + Self::spec_enc(v2).len())[0] == s[pos]);
        if v1 is Player && v2 is Player {
            assert(s.subrange(pos, pos + 2)[1] == s[pos + 1]);
        }
    }

    fn write(&self, out: &mut Vec<u8>) {
        match self {
            ChatTarget::All => out.push(0),
            ChatTarget::Team => out.push(1),
            ChatTarget::Player(p) => {
                out.push(2);
                out.push(*p);
            },
        }
        proof {
            assert(out@ =~= old(out)@ + Self::spec_enc(*self));
        }
    }

    fn read(b: &[u8], pos: usize) -> (r: Option<(ChatTarget, usize)>) {
        if pos >= b.len() {
            return None;
        }
        let tag = b[pos];
        proof {
            assert forall|x: ChatTarget| #[trigger] bytes_at(b@, pos as int, Self::spec_enc(x))
                implies Self::spec_enc(x)[0] == tag by {
                assert(b@.subrange(pos as int, pos + Self::spec_enc(x).len())[0] == b@[pos as int]);
            }
        }
        if tag == 0 {
            proof {
                assert(b@.subrange(pos as int, pos + 1) =~= Self::spec_enc(ChatTarget::All));
            }
            Some((ChatTarget::All, pos + 1))
        } else if tag == 1 {
            proof {
                assert(b@.subrange(pos as int, pos + 1) =~= Self::spec_enc(ChatTarget::Team));
            }
            Some((ChatTarget::Team, pos + 1))
        } else if tag == 2 {
            if pos + 1 >= b.len() {
                return None;
            }
            let p = b[pos + 1];
            proof {
                assert(b@.subrange(pos as int, pos + 2) =~= Self::spec_enc(ChatTarget::Player(p)));
                assert forall|x: ChatTarget| #[trigger] bytes_at(b@, pos as int, Self::spec_enc(x))
                    implies x == ChatTarget::Player(p) by {
                    assert(b@.subrange(pos as int, pos + Self::spec_enc(x).len())[0] == b@[pos as int]);
                    assert(b@.subrange(pos as int, pos + 2)[1] == b@[pos + 1]);
                }
            }
            Some((ChatTarget::Player(p), pos + 2))
        } else {
            None
        }
    }
}

/// Starting resources of every player.
#[derive(Clone, Copy, Debug, PartialEq, Eq, Structural)]
pub enum ResourceLevels {
    Low,
    Normal,
    High,
}

/// What ends a game.
#[derive(Clone, Copy, Debug, PartialEq, Eq, Structural)]
pub enum VictoryCondition {
    Annihilation,
    CapitalElimination,
    /// Number of resource points to control.
    ResourceControl(u32),
    /// Time limit in minutes.
    TimeLimit(u32),
}


/// The commands of one player for one tick: the unit that is transmitted.
#[derive(Clone, Debug)]
pub struct NetworkCommand {
    /// Tick at which the commands take effect.
    pub tick: u64,
    /// The player who issued them.
    pub player_id: u8,
    /// The commands, in the order they were issued.
    pub commands: Vec<Command>,
}

impl DeepView for NetworkCommand {
    type V = (u64, u8, Seq<Seq<u8>>);

    open spec fn deep_view(&self) -> (u64, u8, Seq<Seq<u8>>) {
        (self.tick.deep_view(), self.player_id.deep_view(), self.commands.deep_view())
    }
}

impl Wire for NetworkCommand {
    open spec fn spec_enc(v: (u64, u8, Seq<Seq<u8>>)) -> Seq<u8> {
        <(u64, (u8, Vec<Command>)) as Wire>::spec_enc((v.0, (v.1, v.2)))
    }

    proof fn lemma_enc_nonempty(v: (u64, u8, Seq<Seq<u8>>)) {
        <(u64, (u8, Vec<Command>)) as Wire>::lemma_enc_nonempty((v.0, (v.1, v.2)));
    }

    proof fn lemma_enc_unique(s: Seq<u8>, pos: int, v1: (u64, u8, Seq<Seq<u8>>), v2: (u64, u8, Seq<Seq<u8>>)) {
        <(u64, (u8, Vec<Command>)) as Wire>::lemma_enc_unique(s, pos, (v1.0, (v1.1, v1.2)), (v2.0, (v2.1, v2.2)));
    }

    fn write(&self, out: &mut Vec<u8>) {
        self.tick.write(out);
        self.player_id.write(out);
        self.commands.write(out);
        proof {
            assert(out@ =~= old(out)@ + Self::spec_enc(self.deep_view()));
        }
    }

    fn read(b: &[u8], pos: usize) -> (r: Option<(NetworkCommand, usize)>) {
        let r = <(u64, (u8, Vec<Command>)) as Wire>::read(b, pos);
        proof {
            assert forall|v: (u64, u8, Seq<Seq<u8>>)| #[trigger] bytes_at(b@, pos as int, Self::spec_enc(v)) implies
                bytes_at(b@, pos as int, <(u64, (u8, Vec<Command>)) as Wire>::spec_enc((v.0, (v.1, v.2)))) by {
            }
        }
        match r {
            Some(((f0, (f1, f2)), q)) => Some((NetworkCommand { tick: f0, player_id: f1, commands: f2 }, q)),
            None => None,
        }
    }
}

/// A player's request to join, with the name it goes by.
#[derive(Clone, Debug)]
pub struct PlayerJoinMessage {
    /// Id the sender believes it has (255 before the host assigns one).
    pub player_id: u8,
    /// Display name.
    pub player_name: String,
    /// Whether the player only watches.
    pub is_observer: bool,
}

impl DeepView for PlayerJoinMessage {
    type V = (u8, Seq<char>, bool);

    open spec fn deep_view(&self) -> (u8, Seq<char>, bool) {
        (self.player_id.deep_view(), self.player_name.deep_view(), self.is_observer.deep_view())
    }
}

impl Wire for PlayerJoinMessage {
    open spec fn spec_enc(v: (u8, Seq<char>, bool)) -> Seq<u8> {
        <(u8, (String, bool)) as Wire>::spec_enc((v.0, (v.1, v.2)))
    }

    proof fn lemma_enc_nonempty(v: (u8, Seq<char>, bool)) {
        <(u8, (String, bool)) as Wire>::lemma_enc_nonempty((v.0, (v.1, v.2)));
    }

    proof fn lemma_enc_unique(s: Seq<u8>, pos: int, v1: (u8, Seq<char>, bool), v2: (u8, Seq<char>, bool)) {
        <(u8, (String, bool)) as Wire>::lemma_enc_unique(s, pos, (v1.0, (v1.1, v1.2)), (v2.0, (v2.1, v2.2)));
    }

    fn write(&self, out: &mut Vec<u8>) {
        self.player_id.write(out);
        self.player_name.write(out);
        self.is_observer.write(out);
        proof {
            assert(out@ =~= old(out)@ + Self::spec_enc(self.deep_view()));
        }
    }

    fn read(b: &[u8], pos: usize) -> (r: Option<(PlayerJoinMessage, usize)>) {
        let r = <(u8, (String, bool)) as Wire>::read(b, pos);
        proof {
            assert forall|v: (u8, Seq<char>, bool)| #[trigger] bytes_at(b@, pos as int, Self::spec_enc(v)) implies
                bytes_at(b@, pos as int, <(u8, (String, bool)) as Wire>::spec_enc((v.0, (v.1, v.2)))) by {
            }
        }
        match r {
            Some(((f0, (f1, f2)), q)) => Some((PlayerJoinMessage { player_id: f0, player_name: f1, is_observer: f2 }, q)),
            None => None,
        }
    }
}

/// Notice that a player leaves the session.
#[derive(Clone, Debug)]
pub struct PlayerLeaveMessage {
    /// The player who leaves.
    pub player_id: u8,
    /// Why.
    pub reason: DisconnectReason,
}

impl DeepView for PlayerLeaveMessage {
    type V = (u8, DisconnectReason);

    open spec fn deep_view(&self) -> (u8, DisconnectReason) {
        (self.player_id.deep_view(), self.reason.deep_view())
    }
}

impl Wire for PlayerLeaveMessage {
    open spec fn spec_enc(v: (u8, DisconnectReason)) -> Seq<u8> {
        <(u8, DisconnectReason) as Wire>::spec_enc((v.0, v.1))
    }

    proof fn lemma_enc_nonempty(v: (u8, DisconnectReason)) {
        <(u8, DisconnectReason) as Wire>::lemma_enc_nonempty((v.0, v.1));
    }

    proof fn lemma_enc_unique(s: Seq<u8>, pos: int, v1: (u8, DisconnectReason), v2: (u8, DisconnectReason)) {
        <(u8, DisconnectReason) as Wire>::lemma_enc_unique(s, pos, (v1.0, v1.1), (v2.0, v2.1));
    }

    fn write(&self, out: &mut Vec<u8>) {
        self.player_id.write(out);
        self.reason.write(out);
        proof {
            assert(out@ =~= old(out)@ + Self::spec_enc(self.deep_view()));
        }
    }

    fn read(b: &[u8], pos: usize) -> (r: Option<(PlayerLeaveMessage, usize)>) {
        let r = <(u8, DisconnectReason) as Wire>::read(b, pos);
        proof {
            assert forall|v: (u8, DisconnectReason)| #[trigger] bytes_at(b@, pos as int, Self::spec_enc(v)) implies
                bytes_at(b@, pos as int, <(u8, DisconnectReason) as Wire>::spec_enc((v.0, v.1))) by {
            }
        }
        match r {
            Some(((f0, f1), q)) => Some((PlayerLeaveMessage { player_id: f0, reason: f1 }, q)),
            None => None,
        }
    }
}

/// State checksums of one tick, for divergence detection.
#[derive(Clone, Debug)]
pub struct GameSyncMessage {
    /// The tick the checksums were taken after.
    pub tick: u64,
    /// Player id and that player's state checksum.
    pub checksums: Vec<(u8, u32)>,
    /// Player id and that player's unit count.
    pub unit_counts: Vec<(u8, u32)>,
}

impl DeepView for GameSyncMessage {
    type V = (u64, Seq<(u8, u32)>, Seq<(u8, u32)>);

    open spec fn deep_view(&self) -> (u64, Seq<(u8, u32)>, Seq<(u8, u32)>) {
        (self.tick.deep_view(), self.checksums.deep_view(), self.unit_counts.deep_view())
    }
}

impl Wire for GameSyncMessage {
    open spec fn spec_enc(v: (u64, Seq<(u8, u32)>, Seq<(u8, u32)>)) -> Seq<u8> {
        <(u64, (Vec<(u8, u32)>, Vec<(u8, u32)>)) as Wire>::spec_enc((v.0, (v.1, v.2)))
    }

    proof fn lemma_enc_nonempty(v: (u64, Seq<(u8, u32)>, Seq<(u8, u32)>)) {
        <(u64, (Vec<(u8, u32)>, Vec<(u8, u32)>)) as Wire>::lemma_enc_nonempty((v.0, (v.1, v.2)));
    }

    proof fn lemma_enc_unique(s: Seq<u8>, pos: int, v1: (u64, Seq<(u8, u32)>, Seq<(u8, u32)>), v2: (u64, Seq<(u8, u32)>, Seq<(u8, u32)>)) {
        <(u64, (Vec<(u8, u32)>, Vec<(u8, u32)>)) as Wire>::lemma_enc_unique(s, pos, (v1.0, (v1.1, v1.2)), (v2.0, (v2.1, v2.2)));
    }

    fn write(&self, out: &mut Vec<u8>) {
        self.tick.write(out);
        self.checksums.write(out);
        self.unit_counts.write(out);
        proof {
            assert(out@ =~= old(out)@ + Self::spec_enc(self.deep_view()));
        }
    }

    fn read(b: &[u8], pos: usize) -> (r: Option<(GameSyncMessage, usize)>) {
        let r = <(u64, (Vec<(u8, u32)>, Vec<(u8, u32)>)) as Wire>::read(b, pos);
        proof {
            assert forall|v: (u64, Seq<(u8, u32)>, Seq<(u8, u32)>)| #[trigger] bytes_at(b@, pos as int, Self::spec_enc(v)) implies
                bytes_at(b@, pos as int, <(u64, (Vec<(u8, u32)>, Vec<(u8, u32)>)) as Wire>::spec_enc((v.0, (v.1, v.2)))) by {
            }
        }
        match r {
            Some(((f0, (f1, f2)), q)) => Some((GameSyncMessage { tick: f0, checksums: f1, unit_counts: f2 }, q)),
            None => None,
        }
    }
}

/// A line of chat.
#[derive(Clone, Debug)]
pub struct ChatMessage {
    /// The author.
    pub player_id: u8,
    /// The text.
    pub message: String,
    /// Who it is addressed to.
    pub target: ChatTarget,
}

impl DeepView for ChatMessage {
    type V = (u8, Seq<char>, ChatTarget);

    open spec fn deep_view(&self) -> (u8, Seq<char>, ChatTarget) {
        (self.player_id.deep_view(), self.message.deep_view(), self.target.deep_view())
    }
}

impl Wire for ChatMessage {
    open spec fn spec_enc(v: (u8, Seq<char>, ChatTarget)) -> Seq<u8> {
        <(u8, (String, ChatTarget)) as Wire>::spec_enc((v.0, (v.1, v.2)))
    }

    proof fn lemma_enc_nonempty(v: (u8, Seq<char>, ChatTarget)) {
        <(u8, (String, ChatTarget)) as Wire>::lemma_enc_nonempty((v.0, (v.1, v.2)));
    }

    proof fn lemma_enc_unique(s: Seq<u8>, pos: int, v1: (u8, Seq<char>, ChatTarget), v2: (u8, Seq<char>, ChatTarget)) {
        <(u8, (String, ChatTarget)) as Wire>::lemma_enc_unique(s, pos, (v1.0, (v1.1, v1.2)), (v2.0, (v2.1, v2.2)));
    }

    fn write(&self, out: &mut Vec<u8>) {
        self.player_id.write(out);
        self.message.write(out);
        self.target.write(out);
        proof {
            assert(out@ =~= old(out)@ + Self::spec_enc(self.deep_view()));
        }
    }

    fn read(b: &[u8], pos: usize) -> (r: Option<(ChatMessage, usize)>) {
        let r = <(u8, (String, ChatTarget)) as Wire>::read(b, pos);
        proof {
            assert forall|v: (u8, Seq<char>, ChatTarget)| #[trigger] bytes_at(b@, pos as int, Self::spec_enc(v)) implies
                bytes_at(b@, pos as int, <(u8, (String, ChatTarget)) as Wire>::spec_enc((v.0, (v.1, v.2)))) by {
            }
        }
        match r {
            Some(((f0, (f1, f2)), q)) => Some((ChatMessage { player_id: f0, message: f1, target: f2 }, q)),
            None => None,
        }
    }
}

/// An error report from a peer.
#[derive(Clone, Debug)]
pub struct ErrorMessage {
    /// Error code.
    pub code: u32,
    /// Human-readable text.
    pub message: String,
}

impl DeepView for ErrorMessage {
    type V = (u32, Seq<char>);

    open spec fn deep_view(&self) -> (u32, Seq<char>) {
        (self.code.deep_view(), self.message.deep_view())
    }
}

impl Wire for ErrorMessage {
    open spec fn spec_enc(v: (u32, Seq<char>)) -> Seq<u8> {
        <(u32, String) as Wire>::spec_enc((v.0, v.1))
    }

    proof fn lemma_enc_nonempty(v: (u32, Seq<char>)) {
        <(u32, String) as Wire>::lemma_enc_nonempty((v.0, v.1));
    }

    proof fn lemma_enc_unique(s: Seq<u8>, pos: int, v1: (u32, Seq<char>), v2: (u32, Seq<char>)) {
        <(u32, String) as Wire>::lemma_enc_unique(s, pos, (v1.0, v1.1), (v2.0, v2.1));
    }

    fn write(&self, out: &mut Vec<u8>) {
        self.code.write(out);
        self.message.write(out);
        proof {
            assert(out@ =~= old(out)@ + Self::spec_enc(self.deep_view()));
        }
    }

    fn read(b: &[u8], pos: usize) -> (r: Option<(ErrorMessage, usize)>) {
        let r = <(u32, String) as Wire>::read(b, pos);
        proof {
            assert forall|v: (u32, Seq<char>)| #[trigger] bytes_at(b@, pos as int, Self::spec_enc(v)) implies
                bytes_at(b@, pos as int, <(u32, String) as Wire>::spec_enc((v.0, v.1))) by {
            }
        }
        match r {
            Some(((f0, f1), q)) => Some((ErrorMessage { code: f0, message: f1 }, q)),
            None => None,
        }
    }
}

/// A message between peers: a tagged union over every kind the protocol knows.
#[derive(Clone, Debug)]
pub enum NetworkMessage {
    /// Commands of one player for one tick.
    Commands(NetworkCommand),
    /// A request to join, sent by a client to the host.
    Hello(PlayerJoinMessage),
    /// The host's answer to `Hello`: the id it assigned.
    Welcome { assigned_id: u8 },
    /// A player leaves.
    Leave(PlayerLeaveMessage),
    /// The game starts with this seed at this tick.
    Start { seed: u64, start_tick: u64 },
    /// The sender's current tick, for a peer that fell behind.
    Sync { current_tick: u64 },
    /// State checksums of one tick.
    GameSync(GameSyncMessage),
    /// Latency probe carrying the sender's clock in milliseconds.
    Ping(u64),
    /// Answer to `Ping`, carrying the probe's timestamp back.
    Pong(u64),
    /// A line of chat.
    Chat(ChatMessage),
    /// An error report.
    Error(ErrorMessage),
}

/// The model of a [`NetworkMessage`]: its variant and the model of its fields.
pub ghost enum MessageModel {
    Commands((u64, u8, Seq<Seq<u8>>)),
    Hello((u8, Seq<char>, bool)),
    Welcome(u8),
    Leave((u8, DisconnectReason)),
    Start((u64, u64)),
    Sync(u64),
    GameSync((u64, Seq<(u8, u32)>, Seq<(u8, u32)>)),
    Ping(u64),
    Pong(u64),
    Chat((u8, Seq<char>, ChatTarget)),
    Error((u32, Seq<char>)),
}

impl DeepView for NetworkMessage {
    type V = MessageModel;

    open spec fn deep_view(&self) -> MessageModel {
        match self {
            NetworkMessage::Commands(c) => MessageModel::Commands(c.deep_view()),
            NetworkMessage::Hello(h) => MessageModel::Hello(h.deep_view()),
            NetworkMessage::Welcome { assigned_id } => MessageModel::Welcome(*assigned_id),
            NetworkMessage::Leave(l) => MessageModel::Leave(l.deep_view()),
            NetworkMessage::Start { seed, start_tick } => MessageModel::Start((*seed, *start_tick)),
            NetworkMessage::Sync { current_tick } => MessageModel::Sync(*current_tick),
            NetworkMessage::GameSync(g) => MessageModel::GameSync(g.deep_view()),
            NetworkMessage::Ping(t) => MessageModel::Ping(*t),
            NetworkMessage::Pong(t) => MessageModel::Pong(*t),
            NetworkMessage::Chat(c) => MessageModel::Chat(c.deep_view()),
            NetworkMessage::Error(e) => MessageModel::Error(e.deep_view()),
        }
    }
}

/// The tag byte of each kind of message.
pub open spec fn message_tag(m: MessageModel) -> u8 {
    match m {
        MessageModel::Commands(_) => 0,
        MessageModel::Hello(_) => 1,
        MessageModel::Welcome(_) => 2,
        MessageModel::Leave(_) => 3,
        MessageModel::Start(_) => 4,
        MessageModel::Sync(_) => 5,
        MessageModel::GameSync(_) => 6,
        MessageModel::Ping(_) => 7,
        MessageModel::Pong(_) => 8,
        MessageModel::Chat(_) => 9,
        MessageModel::Error(_) => 10,
    }
}

/// The encoding of a message's fields, after its tag.
pub open spec fn payload_enc(m: MessageModel) -> Seq<u8> {
    match m {
        MessageModel::Commands(x) => <NetworkCommand as Wire>::spec_enc(x),
        MessageModel::Hello(x) => <PlayerJoinMessage as Wire>::spec_enc(x),
        MessageModel::Welcome(x) => <u8 as Wire>::spec_enc(x),
        MessageModel::Leave(x) => <PlayerLeaveMessage as Wire>::spec_enc(x),
        MessageModel::Start(x) => <(u64, u64) as Wire>::spec_enc(x),
        MessageModel::Sync(x) => <u64 as Wire>::spec_enc(x),
        MessageModel::GameSync(x) => <GameSyncMessage as Wire>::spec_enc(x),
        MessageModel::Ping(x) => <u64 as Wire>::spec_enc(x),
        MessageModel::Pong(x) => <u64 as Wire>::spec_enc(x),
        MessageModel::Chat(x) => <ChatMessage as Wire>::spec_enc(x),
        MessageModel::Error(x) => <ErrorMessage as Wire>::spec_enc(x),
    }
}

proof fn lemma_message_split(s: Seq<u8>, pos: int, v: MessageModel)
    requires
        bytes_at(s, pos, NetworkMessage::spec_enc(v)),
    ensures
        s[pos] == message_tag(v),
        bytes_at(s, pos + 1, payload_enc(v)),
{
    lemma_bytes_at_concat(s, pos, seq![message_tag(v)], payload_enc(v));
    assert(s.subrange(pos, pos + 1)[0] == s[pos]);
}

impl Wire for NetworkMessage {
    open spec fn spec_enc(v: MessageModel) -> Seq<u8> {
        seq![message_tag(v)] + payload_enc(v)
    }

    proof fn lemma_enc_nonempty(v: MessageModel) {
    }

    proof fn lemma_enc_unique(s: Seq<u8>, pos: int, v1: MessageModel, v2: MessageModel) {
        lemma_message_split(s, pos, v1);
        lemma_message_split(s, pos, v2);
        match v1 {
            MessageModel::Commands(x) => <NetworkCommand as Wire>::lemma_enc_unique(s, pos + 1, x, v2->Commands_0),
            MessageModel::Hello(x) => <PlayerJoinMessage as Wire>::lemma_enc_unique(s, pos + 1, x, v2->Hello_0),
            MessageModel::Welcome(x) => <u8 as Wire>::lemma_enc_unique(s, pos + 1, x, v2->Welcome_0),
            MessageModel::Leave(x) => <PlayerLeaveMessage as Wire>::lemma_enc_unique(s, pos + 1, x, v2->Leave_0),
            MessageModel::Start(x) => <(u64, u64) as Wire>::lemma_enc_unique(s, pos + 1, x, v2->Start_0),
            MessageModel::Sync(x) => <u64 as Wire>::lemma_enc_unique(s, pos + 1, x, v2->Sync_0),
            MessageModel::GameSync(x) => <GameSyncMessage as Wire>::lemma_enc_unique(s, pos + 1, x, v2->GameSync_0),
            MessageModel::Ping(x) => <u64 as Wire>::lemma_enc_unique(s, pos + 1, x, v2->Ping_0),
            MessageModel::Pong(x) => <u64 as Wire>::lemma_enc_unique(s, pos + 1, x, v2->Pong_0),
            MessageModel::Chat(x) => <ChatMessage as Wire>::lemma_enc_unique(s, pos + 1, x, v2->Chat_0),
            MessageModel::Error(x) => <ErrorMessage as Wire>::lemma_enc_unique(s, pos + 1, x, v2->Error_0),
        }
    }

    fn write(&self, out: &mut Vec<u8>) {
        match self {
            NetworkMessage::Commands(c) => {
                out.push(0);
                c.write(out);
            },
            NetworkMessage::Hello(h) => {
                out.push(1);
                h.write(out);
            },
            NetworkMessage::Welcome { assigned_id } => {
                out.push(2);
                assigned_id.write(out);
            },
            NetworkMessage::Leave(l) => {
                out.push(3);
                l.write(out);
            },
            NetworkMessage::Start { seed, start_tick } => {
                out.push(4);
                seed.write(out);
                start_tick.write(out);
            },
            NetworkMessage::Sync { current_tick } => {
                out.push(5);
                current_tick.write(out);
            },
            NetworkMessage::GameSync(g) => {
                out.push(6);
                g.write(out);
            },
            NetworkMessage::Ping(t) => {
                out.push(7);
                t.write(out);
            },
            NetworkMessage::Pong(t) => {
                out.push(8);
                t.write(out);
            },
            NetworkMessage::Chat(c) => {
                out.push(9);
                c.write(out);
            },
            NetworkMessage::Error(e) => {
                out.push(10);
                e.write(out);
            },
        }
        proof {
            assert(out@ =~= old(out)@ + Self::spec_enc(self.deep_view()));
        }
    }

    fn read(b: &[u8], pos: usize) -> (r: Option<(NetworkMessage, usize)>) {
        if pos >= b.len() {
            return None;
        }
        let tag = b[pos];
        proof {
            assert(b@.subrange(pos as int, pos + 1) =~= seq![tag]);
        }
        if tag == 0 {
            match <NetworkCommand as Wire>::read(b, pos + 1) {
                Some((x, q)) => {
                    let m = NetworkMessage::Commands(x);
                    proof {
                        lemma_bytes_at_concat(b@, pos as int, seq![tag], <NetworkCommand as Wire>::spec_enc(x.deep_view()));
                        assert forall|v: MessageModel| #[trigger] bytes_at(b@, pos as int, Self::spec_enc(v))
                            implies v == m.deep_view() by {
                            lemma_message_split(b@, pos as int, v);
                            assert(bytes_at(b@, pos + 1, <NetworkCommand as Wire>::spec_enc(v->Commands_0)));
                        }
                    }
                    Some((m, q))
                },
                None => {
                    proof {
                        assert forall|v: MessageModel| !bytes_at(b@, pos as int, #[trigger] Self::spec_enc(v)) by {
                            if bytes_at(b@, pos as int, Self::spec_enc(v)) {
                                lemma_message_split(b@, pos as int, v);
                                assert(bytes_at(b@, pos + 1, <NetworkCommand as Wire>::spec_enc(v->Commands_0)));
                            }
                        }
                    }
                    None
                },
            }
        }
        else if tag == 1 {
            match <PlayerJoinMessage as Wire>::read(b, pos + 1) {
                Some((x, q)) => {
                    let m = NetworkMessage::Hello(x);
                    proof {
                        lemma_bytes_at_concat(b@, pos as int, seq![tag], <PlayerJoinMessage as Wire>::spec_enc(x.deep_view()));
                        assert forall|v: MessageModel| #[trigger] bytes_at(b@, pos as int, Self::spec_enc(v))
                            implies v == m.deep_view() by {
                            lemma_message_split(b@, pos as int, v);
                            assert(bytes_at(b@, pos + 1, <PlayerJoinMessage as Wire>::spec_enc(v->Hello_0)));
                        }
                    }
                    Some((m, q))
                },
                None => {
                    proof {
                        assert forall|v: MessageModel| !bytes_at(b@, pos as int, #[trigger] Self::spec_enc(v)) by {
                            if bytes_at(b@, pos as int, Self::spec_enc(v)) {
                                lemma_message_split(b@, pos as int, v);
                                assert(bytes_at(b@, pos + 1, <PlayerJoinMessage as Wire>::spec_enc(v->Hello_0)));
                            }
                        }
                    }
                    None
                },
            }
        }
        else if tag == 2 {
            match <u8 as Wire>::read(b, pos + 1) {
                Some((x, q)) => {
                    let m = NetworkMessage::Welcome { assigned_id: x };
                    proof {
                        lemma_bytes_at_concat(b@, pos as int, seq![tag], <u8 as Wire>::spec_enc(x.deep_view()));
                        assert forall|v: MessageModel| #[trigger] bytes_at(b@, pos as int, Self::spec_enc(v))
                            implies v == m.deep_view() by {
                            lemma_message_split(b@, pos as int, v);
                            assert(bytes_at(b@, pos + 1, <u8 as Wire>::spec_enc(v->Welcome_0)));
                        }
                    }
                    Some((m, q))
                },
                None => {
                    proof {
                        assert forall|v: MessageModel| !bytes_at(b@, pos as int, #[trigger] Self::spec_enc(v)) by {
                            if bytes_at(b@, pos as int, Self::spec_enc(v)) {
                                lemma_message_split(b@, pos as int, v);
                                assert(bytes_at(b@, pos + 1, <u8 as Wire>::spec_enc(v->Welcome_0)));
                            }
                        }
                    }
                    None
                },
            }
        }
        else if tag == 3 {
            match <PlayerLeaveMessage as Wire>::read(b, pos + 1) {
                Some((x, q)) => {
                    let m = NetworkMessage::Leave(x);
                    proof {
                        lemma_bytes_at_concat(b@, pos as int, seq![tag], <PlayerLeaveMessage as Wire>::spec_enc(x.deep_view()));
                        assert forall|v: MessageModel| #[trigger] bytes_at(b@, pos as int, Self::spec_enc(v))
                            implies v == m.deep_view() by {
                            lemma_message_split(b@, pos as int, v);
                            assert(bytes_at(b@, pos + 1, <PlayerLeaveMessage as Wire>::spec_enc(v->Leave_0)));
                        }
                    }
                    Some((m, q))
                },
                None => {
                    proof {
                        assert forall|v: MessageModel| !bytes_at(b@, pos as int, #[trigger] Self::spec_enc(v)) by {
                            if bytes_at(b@, pos as int, Self::spec_enc(v)) {
                                lemma_message_split(b@, pos as int, v);
                                assert(bytes_at(b@, pos + 1, <PlayerLeaveMessage as Wire>::spec_enc(v->Leave_0)));
                            }
                        }
                    }
                    None
                },
            }
        }
        else if tag == 4 {
            match <(u64, u64) as Wire>::read(b, pos + 1) {
                Some((x, q)) => {
                    let m = NetworkMessage::Start { seed: x.0, start_tick: x.1 };
                    proof {
                        lemma_bytes_at_concat(b@, pos as int, seq![tag], <(u64, u64) as Wire>::spec_enc(x.deep_view()));
                        assert forall|v: MessageModel| #[trigger] bytes_at(b@, pos as int, Self::spec_enc(v))
                            implies v == m.deep_view() by {
                            lemma_message_split(b@, pos as int, v);
                            assert(bytes_at(b@, pos + 1, <(u64, u64) as Wire>::spec_enc(v->Start_0)));
                        }
                    }
                    Some((m, q))
                },
                None => {
                    proof {
                        assert forall|v: MessageModel| !bytes_at(b@, pos as int, #[trigger] Self::spec_enc(v)) by {
                            if bytes_at(b@, pos as int, Self::spec_enc(v)) {
                                lemma_message_split(b@, pos as int, v);
                                assert(bytes_at(b@, pos + 1, <(u64, u64) as Wire>::spec_enc(v->Start_0)));
                            }
                        }
                    }
                    None
                },
            }
        }
        else if tag == 5 {
            match <u64 as Wire>::read(b, pos + 1) {
                Some((x, q)) => {
                    let m = NetworkMessage::Sync { current_tick: x };
                    proof {
                        lemma_bytes_at_concat(b@, pos as int, seq![tag], <u64 as Wire>::spec_enc(x.deep_view()));
                        assert forall|v: MessageModel| #[trigger] bytes_at(b@, pos as int, Self::spec_enc(v))
                            implies v == m.deep_view() by {
                            lemma_message_split(b@, pos as int, v);
                            assert(bytes_at(b@, pos + 1, <u64 as Wire>::spec_enc(v->Sync_0)));
                        }
                    }
                    Some((m, q))
                },
                None => {
                    proof {
                        assert forall|v: MessageModel| !bytes_at(b@, pos as int, #[trigger] Self::spec_enc(v)) by {
                            if bytes_at(b@, pos as int, Self::spec_enc(v)) {
                                lemma_message_split(b@, pos as int, v);
                                assert(bytes_at(b@, pos + 1, <u64 as Wire>::spec_enc(v->Sync_0)));
                            }
                        }
                    }
                    None
                },
            }
        }
        else if tag == 6 {
            match <GameSyncMessage as Wire>::read(b, pos + 1) {
                Some((x, q)) => {
                    let m = NetworkMessage::GameSync(x);
                    proof {
                        lemma_bytes_at_concat(b@, pos as int, seq![tag], <GameSyncMessage as Wire>::spec_enc(x.deep_view()));
                        assert forall|v: MessageModel| #[trigger] bytes_at(b@, pos as int, Self::spec_enc(v))
                            implies v == m.deep_view() by {
                            lemma_message_split(b@, pos as int, v);
                            assert(bytes_at(b@, pos + 1, <GameSyncMessage as Wire>::spec_enc(v->GameSync_0)));
                        }
                    }
                    Some((m, q))
                },
                None => {
                    proof {
                        assert forall|v: MessageModel| !bytes_at(b@, pos as int, #[trigger] Self::spec_enc(v)) by {
                            if bytes_at(b@, pos as int, Self::spec_enc(v)) {
                                lemma_message_split(b@, pos as int, v);
                                assert(bytes_at(b@, pos + 1, <GameSyncMessage as Wire>::spec_enc(v->GameSync_0)));
                            }
                        }
                    }
                    None
                },
            }
        }
        else if tag == 7 {
            match <u64 as Wire>::read(b, pos + 1) {
                Some((x, q)) => {
                    let m = NetworkMessage::Ping(x);
                    proof {
                        lemma_bytes_at_concat(b@, pos as int, seq![tag], <u64 as Wire>::spec_enc(x.deep_view()));
                        assert forall|v: MessageModel| #[trigger] bytes_at(b@, pos as int, Self::spec_enc(v))
                            implies v == m.deep_view() by {
                            lemma_message_split(b@, pos as int, v);
                            assert(bytes_at(b@, pos + 1, <u64 as Wire>::spec_enc(v->Ping_0)));
                        }
                    }
                    Some((m, q))
                },
                None => {
                    proof {
                        assert forall|v: MessageModel| !bytes_at(b@, pos as int, #[trigger] Self::spec_enc(v)) by {
                            if bytes_at(b@, pos as int, Self::spec_enc(v)) {
                                lemma_message_split(b@, pos as int, v);
                                assert(bytes_at(b@, pos + 1, <u64 as Wire>::spec_enc(v->Ping_0)));
                            }
                        }
                    }
                    None
                },
            }
        }
        else if tag == 8 {
            match <u64 as Wire>::read(b, pos + 1) {
                Some((x, q)) => {
                    let m = NetworkMessage::Pong(x);
                    proof {
                        lemma_bytes_at_concat(b@, pos as int, seq![tag], <u64 as Wire>::spec_enc(x.deep_view()));
                        assert forall|v: MessageModel| #[trigger] bytes_at(b@, pos as int, Self::spec_enc(v))
                            implies v == m.deep_view() by {
                            lemma_message_split(b@, pos as int, v);
                            assert(bytes_at(b@, pos + 1, <u64 as Wire>::spec_enc(v->Pong_0)));
                        }
                    }
                    Some((m, q))
                },
                None => {
                    proof {
                        assert forall|v: MessageModel| !bytes_at(b@, pos as int, #[trigger] Self::spec_enc(v)) by {
                            if bytes_at(b@, pos as int, Self::spec_enc(v)) {
                                lemma_message_split(b@, pos as int, v);
                                assert(bytes_at(b@, pos + 1, <u64 as Wire>::spec_enc(v->Pong_0)));
                            }
                        }
                    }
                    None
                },
            }
        }
        else if tag == 9 {
            match <ChatMessage as Wire>::read(b, pos + 1) {
                Some((x, q)) => {
                    let m = NetworkMessage::Chat(x);
                    proof {
                        lemma_bytes_at_concat(b@, pos as int, seq![tag], <ChatMessage as Wire>::spec_enc(x.deep_view()));
                        assert forall|v: MessageModel| #[trigger] bytes_at(b@, pos as int, Self::spec_enc(v))
                            implies v == m.deep_view() by {
                            lemma_message_split(b@, pos as int, v);
                            assert(bytes_at(b@, pos + 1, <ChatMessage as Wire>::spec_enc(v->Chat_0)));
                        }
                    }
                    Some((m, q))
                },
                None => {
                    proof {
                        assert forall|v: MessageModel| !bytes_at(b@, pos as int, #[trigger] Self::spec_enc(v)) by {
                            if bytes_at(b@, pos as int, Self::spec_enc(v)) {
                                lemma_message_split(b@, pos as int, v);
                                assert(bytes_at(b@, pos + 1, <ChatMessage as Wire>::spec_enc(v->Chat_0)));
                            }
                        }
                    }
                    None
                },
            }
        }
        else if tag == 10 {
            match <ErrorMessage as Wire>::read(b, pos + 1) {
                Some((x, q)) => {
                    let m = NetworkMessage::Error(x);
                    proof {
                        lemma_bytes_at_concat(b@, pos as int, seq![tag], <ErrorMessage as Wire>::spec_enc(x.deep_view()));
                        assert forall|v: MessageModel| #[trigger] bytes_at(b@, pos as int, Self::spec_enc(v))
                            implies v == m.deep_view() by {
                            lemma_message_split(b@, pos as int, v);
                            assert(bytes_at(b@, pos + 1, <ErrorMessage as Wire>::spec_enc(v->Error_0)));
                        }
                    }
                    Some((m, q))
                },
                None => {
                    proof {
                        assert forall|v: MessageModel| !bytes_at(b@, pos as int, #[trigger] Self::spec_enc(v)) by {
                            if bytes_at(b@, pos as int, Self::spec_enc(v)) {
                                lemma_message_split(b@, pos as int, v);
                                assert(bytes_at(b@, pos + 1, <ErrorMessage as Wire>::spec_enc(v->Error_0)));
                            }
                        }
                    }
                    None
                },
            }
        } else {
            proof {
                assert forall|v: MessageModel| !bytes_at(b@, pos as int, #[trigger] Self::spec_enc(v)) by {
                    if bytes_at(b@, pos as int, Self::spec_enc(v)) {
                        lemma_message_split(b@, pos as int, v);
                    }
                }
            }
            None
        }
    }
}

/// The message that the packet `b` encodes, if any.
pub open spec fn message_of(b: Seq<u8>) -> Option<MessageModel> {
    if exists|v: MessageModel| NetworkMessage::spec_enc(v) == b {
        Some(choose|v: MessageModel| NetworkMessage::spec_enc(v) == b)
    } else {
        None
    }
}

/// A packet that is not the encoding of any message.
#[derive(Clone, Copy, Debug, PartialEq, Eq, Structural)]
pub struct DecodeError;

impl NetworkMessage {
    /// The bytes to put on the wire.
    pub fn encode(&self) -> (r: Vec<u8>)
        ensures
            r@ == NetworkMessage::spec_enc(self.deep_view()),
    {
        encode_all(self)
    }

    /// The message that `data` encodes; an error if it encodes none.
    pub fn decode(data: &[u8]) -> (r: Result<NetworkMessage, DecodeError>)
        ensures
            match r {
                Ok(m) => NetworkMessage::spec_enc(m.deep_view()) == data@ && message_of(data@) == Some(
                    m.deep_view(),
                ),
                Err(_) => message_of(data@) is None,
            },
    {
        let total = data.len();
        match decode_all::<NetworkMessage>(data) {
            Some(m) => {
                proof {
                    assert(data@.len() == total);
                    let c = choose|v: MessageModel| NetworkMessage::spec_enc(v) == data@;
                    lemma_enc_injective::<NetworkMessage>(c, m.deep_view());
                }
                Ok(m)
            },
            None => Err(DecodeError),
        }
    }
}

/// Copies a byte string.
pub fn copy_bytes(b: &Vec<u8>) -> (r: Vec<u8>)
    ensures
        r@ == b@,
{
    vstd::slice::slice_to_vec(b.as_slice())
}

/// Copies a command list.
pub fn copy_commands(cs: &Vec<Command>) -> (r: Vec<Command>)
    ensures
        r.deep_view() == cs.deep_view(),
{
    let mut out: Vec<Command> = Vec::new();
    let mut i: usize = 0;
    while i < cs.len()
        invariant
            i <= cs@.len(),
            out.deep_view() == cs.deep_view().take(i as int),
        decreases cs@.len() - i,
    {
        let c = Command { data: copy_bytes(&cs[i].data) };
        let ghost prev = out.deep_view();
        out.push(c);
        proof {
            assert(c.deep_view() == cs.deep_view()[i as int]);
            assert(out.deep_view() =~= prev.push(c.deep_view()));
            assert(out.deep_view() =~= cs.deep_view().take(i + 1));
        }
        i = i + 1;
    }
    proof {
        assert(cs.deep_view().take(i as int) =~= cs.deep_view());
    }
    out
}

/// Log of every batch of commands, in the order they were logged.
pub struct CommandLogger {
    commands: Vec<NetworkCommand>,
    enabled: bool,
}

impl CommandLogger {
    /// The batches logged so far, as `(tick, player, commands)`.
    pub closed spec fn entries(&self) -> Seq<(u64, u8, Seq<Seq<u8>>)> {
        self.commands.deep_view()
    }

    pub closed spec fn logging(&self) -> bool {
        self.enabled
    }

    /// An empty log that is logging.
    pub fn new() -> (r: Self)
        ensures
            r.entries() == Seq::<(u64, u8, Seq<Seq<u8>>)>::empty(),
            r.logging(),
    {
        let r = CommandLogger { commands: Vec::new(), enabled: true };
        proof {
            assert(r.commands.deep_view() =~= Seq::<(u64, u8, Seq<Seq<u8>>)>::empty());
        }
        r
    }

    /// Appends the batch of player `player_id` for `tick`, when logging.
    pub fn log_commands(&mut self, tick: u64, player_id: u8, commands: &Vec<Command>)
        ensures
            final(self).logging() == old(self).logging(),
            final(self).entries() == if old(self).logging() {
                old(self).entries().push((tick, player_id, commands.deep_view()))
            } else {
                old(self).entries()
            },
    {
        if !self.enabled {
            return;
        }
        let ghost prev = self.commands.deep_view();
        let entry = NetworkCommand { tick, player_id, commands: copy_commands(commands) };
        self.commands.push(entry);
        proof {
            assert(self.commands.deep_view() =~= prev.push((tick, player_id, commands.deep_view())));
        }
    }

    pub fn set_enabled(&mut self, enabled: bool)
        ensures
            final(self).logging() == enabled,
            final(self).entries() == old(self).entries(),
    {
        self.enabled = enabled;
    }

    pub fn is_enabled(&self) -> (r: bool)
        ensures
            r == self.logging(),
    {
        self.enabled
    }

    pub fn get_commands(&self) -> (r: &Vec<NetworkCommand>)
        ensures
            r.deep_view() == self.entries(),
    {
        &self.commands
    }

    /// Forgets every logged batch.
    pub fn clear(&mut self)
        ensures
            final(self).logging() == old(self).logging(),
            final(self).entries() == Seq::<(u64, u8, Seq<Seq<u8>>)>::empty(),
    {
        self.commands = Vec::new();
        proof {
            assert(self.commands.deep_view() =~= Seq::<(u64, u8, Seq<Seq<u8>>)>::empty());
        }
    }

    /// The log as one byte string.
    pub fn to_bytes(&self) -> (r: Vec<u8>)
        ensures
            r@ == <Vec<NetworkCommand> as Wire>::spec_enc(self.entries()),
    {
        encode_all(&self.commands)
    }

    /// Replaces the log with the one `data` holds; an error, and no change,
    /// if it holds none.
    pub fn load_from_bytes(&mut self, data: &[u8]) -> (r: Result<(), DecodeError>)
        ensures
            final(self).logging() == old(self).logging(),
            match r {
                Ok(()) => <Vec<NetworkCommand> as Wire>::spec_enc(final(self).entries()) == data@,
                Err(_) => final(self).entries() == old(self).entries() && forall|
                    v: Seq<(u64, u8, Seq<Seq<u8>>)>,
                | <Vec<NetworkCommand> as Wire>::spec_enc(v) != data@,
            },
    {
        match decode_all::<Vec<NetworkCommand>>(data) {
            Some(commands) => {
                self.commands = commands;
                Ok(())
            },
            None => Err(DecodeError),
        }
    }
}

/// Copies a message.
pub fn copy_message(m: &NetworkMessage) -> (r: NetworkMessage)
    ensures
        r.deep_view() == m.deep_view(),
{
    match m {
        NetworkMessage::Commands(b) => NetworkMessage::Commands(
            NetworkCommand { tick: b.tick, player_id: b.player_id, commands: copy_commands(&b.commands) },
        ),
        NetworkMessage::Hello(h) => NetworkMessage::Hello(
            PlayerJoinMessage {
                player_id: h.player_id,
                player_name: h.player_name.clone(),
                is_observer: h.is_observer,
            },
        ),
        NetworkMessage::Welcome { assigned_id } => NetworkMessage::Welcome { assigned_id: *assigned_id },
        NetworkMessage::Leave(l) => NetworkMessage::Leave(
            PlayerLeaveMessage { player_id: l.player_id, reason: l.reason },
        ),
        NetworkMessage::Start { seed, start_tick } => NetworkMessage::Start {
            seed: *seed,
            start_tick: *start_tick,
        },
        NetworkMessage::Sync { current_tick } => NetworkMessage::Sync { current_tick: *current_tick },
        NetworkMessage::GameSync(g) => {
            let checksums = vstd::slice::slice_to_vec(g.checksums.as_slice());
            let unit_counts = vstd::slice::slice_to_vec(g.unit_counts.as_slice());
            proof {
                assert(checksums.deep_view() =~= g.checksums.deep_view());
                assert(unit_counts.deep_view() =~= g.unit_counts.deep_view());
            }
            NetworkMessage::GameSync(GameSyncMessage { tick: g.tick, checksums, unit_counts })
        },
        NetworkMessage::Ping(t) => NetworkMessage::Ping(*t),
        NetworkMessage::Pong(t) => NetworkMessage::Pong(*t),
        NetworkMessage::Chat(c) => NetworkMessage::Chat(
            ChatMessage { player_id: c.player_id, message: c.message.clone(), target: c.target },
        ),
        NetworkMessage::Error(e) => NetworkMessage::Error(
            ErrorMessage { code: e.code, message: e.message.clone() },
        ),
    }
}

} // verus!
