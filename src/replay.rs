//! Replay log: every tick that was advanced, with the commands each player
//! contributed, plus the metadata needed to run the game again.  A log is
//! saved as one byte string in the wire format and loaded back unchanged.
use vstd::prelude::*;
use crate::commands::{copy_commands, Command};
use crate::wire::{bytes_at, decode_all, encode_all, lemma_enc_injective, Wire};

verus! {


/// The commands of one player within one tick.
#[derive(Clone, Debug)]
pub struct PlayerTickCommands {
    /// The player.
    pub player_id: u8,
    /// Its commands, in the order they were issued.
    pub commands: Vec<Command>,
}

impl DeepView for PlayerTickCommands {
    type V = (u8, Seq<Seq<u8>>);

    open spec fn deep_view(&self) -> (u8, Seq<Seq<u8>>) {
        (self.player_id.deep_view(), self.commands.deep_view())
    }
}

impl Wire for PlayerTickCommands {
    open spec fn spec_enc(v: (u8, Seq<Seq<u8>>)) -> Seq<u8> {
        <(u8, Vec<Command>) as Wire>::spec_enc((v.0, v.1))
    }

    proof fn lemma_enc_nonempty(v: (u8, Seq<Seq<u8>>)) {
        <(u8, Vec<Command>) as Wire>::lemma_enc_nonempty((v.0, v.1));
    }

    proof fn lemma_enc_unique(s: Seq<u8>, pos: int, v1: (u8, Seq<Seq<u8>>), v2: (u8, Seq<Seq<u8>>)) {
        <(u8, Vec<Command>) as Wire>::lemma_enc_unique(s, pos, (v1.0, v1.1), (v2.0, v2.1));
    }

    fn write(&self, out: &mut Vec<u8>) {
        self.player_id.write(out);
        self.commands.write(out);
        proof {
            assert(out@ =~= old(out)@ + Self::spec_enc(self.deep_view()));
        }
    }

    fn read(b: &[u8], pos: usize) -> (r: Option<(PlayerTickCommands, usize)>) {
        let r = <(u8, Vec<Command>) as Wire>::read(b, pos);
        proof {
            assert forall|v: (u8, Seq<Seq<u8>>)| #[trigger] bytes_at(b@, pos as int, Self::spec_enc(v)) implies
                bytes_at(b@, pos as int, <(u8, Vec<Command>) as Wire>::spec_enc((v.0, v.1))) by {
            }
        }
        match r {
            Some(((f0, f1), q)) => Some((PlayerTickCommands { player_id: f0, commands: f1 }, q)),
            None => None,
        }
    }
}

/// The commands executed at one tick, by player in ascending order.
#[derive(Clone, Debug)]
pub struct TickCommands {
    /// The tick.
    pub tick: u64,
    /// Each contributing player's commands.
    pub player_commands: Vec<PlayerTickCommands>,
}

impl DeepView for TickCommands {
    type V = (u64, Seq<(u8, Seq<Seq<u8>>)>);

    open spec fn deep_view(&self) -> (u64, Seq<(u8, Seq<Seq<u8>>)>) {
        (self.tick.deep_view(), self.player_commands.deep_view())
    }
}

impl Wire for TickCommands {
    open spec fn spec_enc(v: (u64, Seq<(u8, Seq<Seq<u8>>)>)) -> Seq<u8> {
        <(u64, Vec<PlayerTickCommands>) as Wire>::spec_enc((v.0, v.1))
    }

    proof fn lemma_enc_nonempty(v: (u64, Seq<(u8, Seq<Seq<u8>>)>)) {
        <(u64, Vec<PlayerTickCommands>) as Wire>::lemma_enc_nonempty((v.0, v.1));
    }

    proof fn lemma_enc_unique(s: Seq<u8>, pos: int, v1: (u64, Seq<(u8, Seq<Seq<u8>>)>), v2: (u64, Seq<(u8, Seq<Seq<u8>>)>)) {
        <(u64, Vec<PlayerTickCommands>) as Wire>::lemma_enc_unique(s, pos, (v1.0, v1.1), (v2.0, v2.1));
    }

    fn write(&self, out: &mut Vec<u8>) {
        self.tick.write(out);
        self.player_commands.write(out);
        proof {
            assert(out@ =~= old(out)@ + Self::spec_enc(self.deep_view()));
        }
    }

    fn read(b: &[u8], pos: usize) -> (r: Option<(TickCommands, usize)>) {
        let r = <(u64, Vec<PlayerTickCommands>) as Wire>::read(b, pos);
        proof {
            assert forall|v: (u64, Seq<(u8, Seq<Seq<u8>>)>)| #[trigger] bytes_at(b@, pos as int, Self::spec_enc(v)) implies
                bytes_at(b@, pos as int, <(u64, Vec<PlayerTickCommands>) as Wire>::spec_enc((v.0, v.1))) by {
            }
        }
        match r {
            Some(((f0, f1), q)) => Some((TickCommands { tick: f0, player_commands: f1 }, q)),
            None => None,
        }
    }
}

/// A colour, one byte per channel.
#[derive(Clone, Copy, Debug, PartialEq, Eq, Structural)]
pub struct Rgba {
    /// Red.
    pub r: u8,
    /// Green.
    pub g: u8,
    /// Blue.
    pub b: u8,
    /// Opacity.
    pub a: u8,
}

impl DeepView for Rgba {
    type V = (u8, u8, u8, u8);

    open spec fn deep_view(&self) -> (u8, u8, u8, u8) {
        (self.r.deep_view(), self.g.deep_view(), self.b.deep_view(), self.a.deep_view())
    }
}

impl Wire for Rgba {
    open spec fn spec_enc(v: (u8, u8, u8, u8)) -> Seq<u8> {
        <(u8, (u8, (u8, u8))) as Wire>::spec_enc((v.0, (v.1, (v.2, v.3))))
    }

    proof fn lemma_enc_nonempty(v: (u8, u8, u8, u8)) {
        <(u8, (u8, (u8, u8))) as Wire>::lemma_enc_nonempty((v.0, (v.1, (v.2, v.3))));
    }

    proof fn lemma_enc_unique(s: Seq<u8>, pos: int, v1: (u8, u8, u8, u8), v2: (u8, u8, u8, u8)) {
        <(u8, (u8, (u8, u8))) as Wire>::lemma_enc_unique(s, pos, (v1.0, (v1.1, (v1.2, v1.3))), (v2.0, (v2.1, (v2.2, v2.3))));
    }

    fn write(&self, out: &mut Vec<u8>) {
        self.r.write(out);
        self.g.write(out);
        self.b.write(out);
        self.a.write(out);
        proof {
            assert(out@ =~= old(out)@ + Self::spec_enc(self.deep_view()));
        }
    }

    fn read(b: &[u8], pos: usize) -> (r: Option<(Rgba, usize)>) {
        let r = <(u8, (u8, (u8, u8))) as Wire>::read(b, pos);
        proof {
            assert forall|v: (u8, u8, u8, u8)| #[trigger] bytes_at(b@, pos as int, Self::spec_enc(v)) implies
                bytes_at(b@, pos as int, <(u8, (u8, (u8, u8))) as Wire>::spec_enc((v.0, (v.1, (v.2, v.3))))) by {
            }
        }
        match r {
            Some(((f0, (f1, (f2, f3))), q)) => Some((Rgba { r: f0, g: f1, b: f2, a: f3 }, q)),
            None => None,
        }
    }
}

/// A participant of a recorded game.
#[derive(Clone, Debug)]
pub struct PlayerReplayInfo {
    /// Player id.
    pub id: u8,
    /// Display name.
    pub name: String,
    /// Team colour.
    pub color: Rgba,
    /// Faction.
    pub race: String,
    /// Whether a person (not the computer) played.
    pub is_human: bool,
}

impl DeepView for PlayerReplayInfo {
    type V = (u8, Seq<char>, (u8, u8, u8, u8), Seq<char>, bool);

    open spec fn deep_view(&self) -> (u8, Seq<char>, (u8, u8, u8, u8), Seq<char>, bool) {
        (self.id.deep_view(), self.name.deep_view(), self.color.deep_view(), self.race.deep_view(), self.is_human.deep_view())
    }
}

impl Wire for PlayerReplayInfo {
    open spec fn spec_enc(v: (u8, Seq<char>, (u8, u8, u8, u8), Seq<char>, bool)) -> Seq<u8> {
        <(u8, (String, (Rgba, (String, bool)))) as Wire>::spec_enc((v.0, (v.1, (v.2, (v.3, v.4)))))
    }

    proof fn lemma_enc_nonempty(v: (u8, Seq<char>, (u8, u8, u8, u8), Seq<char>, bool)) {
        <(u8, (String, (Rgba, (String, bool)))) as Wire>::lemma_enc_nonempty((v.0, (v.1, (v.2, (v.3, v.4)))));
    }

    proof fn lemma_enc_unique(s: Seq<u8>, pos: int, v1: (u8, Seq<char>, (u8, u8, u8, u8), Seq<char>, bool), v2: (u8, Seq<char>, (u8, u8, u8, u8), Seq<char>, bool)) {
        <(u8, (String, (Rgba, (String, bool)))) as Wire>::lemma_enc_unique(s, pos, (v1.0, (v1.1, (v1.2, (v1.3, v1.4)))), (v2.0, (v2.1, (v2.2, (v2.3, v2.4)))));
    }

    fn write(&self, out: &mut Vec<u8>) {
        self.id.write(out);
        self.name.write(out);
        self.color.write(out);
        self.race.write(out);
        self.is_human.write(out);
        proof {
            assert(out@ =~= old(out)@ + Self::spec_enc(self.deep_view()));
        }
    }

    fn read(b: &[u8], pos: usize) -> (r: Option<(PlayerReplayInfo, usize)>) {
        let r = <(u8, (String, (Rgba, (String, bool)))) as Wire>::read(b, pos);
        proof {
            assert forall|v: (u8, Seq<char>, (u8, u8, u8, u8), Seq<char>, bool)| #[trigger] bytes_at(b@, pos as int, Self::spec_enc(v)) implies
                bytes_at(b@, pos as int, <(u8, (String, (Rgba, (String, bool)))) as Wire>::spec_enc((v.0, (v.1, (v.2, (v.3, v.4)))))) by {
            }
        }
        match r {
            Some(((f0, (f1, (f2, (f3, f4)))), q)) => Some((PlayerReplayInfo { id: f0, name: f1, color: f2, race: f3, is_human: f4 }, q)),
            None => None,
        }
    }
}

/// What a replay records besides the commands.
#[derive(Clone, Debug)]
pub struct ReplayMetadata {
    /// Version of the program that recorded it.
    pub version: String,
    /// The map.
    pub map_name: String,
    /// The participants.
    pub players: Vec<PlayerReplayInfo>,
    /// Start, in milliseconds since the Unix epoch.
    pub start_time: u64,
    /// Length of the recording in milliseconds.
    pub duration: u64,
    /// Seed of the game's random numbers.
    pub game_seed: u64,
}

impl DeepView for ReplayMetadata {
    type V = (Seq<char>, Seq<char>, Seq<(u8, Seq<char>, (u8, u8, u8, u8), Seq<char>, bool)>, u64, u64, u64);

    open spec fn deep_view(&self) -> (Seq<char>, Seq<char>, Seq<(u8, Seq<char>, (u8, u8, u8, u8), Seq<char>, bool)>, u64, u64, u64) {
        (self.version.deep_view(), self.map_name.deep_view(), self.players.deep_view(), self.start_time.deep_view(), self.duration.deep_view(), self.game_seed.deep_view())
    }
}

impl Wire for ReplayMetadata {
    open spec fn spec_enc(v: (Seq<char>, Seq<char>, Seq<(u8, Seq<char>, (u8, u8, u8, u8), Seq<char>, bool)>, u64, u64, u64)) -> Seq<u8> {
        <(String, (String, (Vec<PlayerReplayInfo>, (u64, (u64, u64))))) as Wire>::spec_enc((v.0, (v.1, (v.2, (v.3, (v.4, v.5))))))
    }

    proof fn lemma_enc_nonempty(v: (Seq<char>, Seq<char>, Seq<(u8, Seq<char>, (u8, u8, u8, u8), Seq<char>, bool)>, u64, u64, u64)) {
        <(String, (String, (Vec<PlayerReplayInfo>, (u64, (u64, u64))))) as Wire>::lemma_enc_nonempty((v.0, (v.1, (v.2, (v.3, (v.4, v.5))))));
    }

    proof fn lemma_enc_unique(s: Seq<u8>, pos: int, v1: (Seq<char>, Seq<char>, Seq<(u8, Seq<char>, (u8, u8, u8, u8), Seq<char>, bool)>, u64, u64, u64), v2: (Seq<char>, Seq<char>, Seq<(u8, Seq<char>, (u8, u8, u8, u8), Seq<char>, bool)>, u64, u64, u64)) {
        <(String, (String, (Vec<PlayerReplayInfo>, (u64, (u64, u64))))) as Wire>::lemma_enc_unique(s, pos, (v1.0, (v1.1, (v1.2, (v1.3, (v1.4, v1.5))))), (v2.0, (v2.1, (v2.2, (v2.3, (v2.4, v2.5))))));
    }

    fn write(&self, out: &mut Vec<u8>) {
        self.version.write(out);
        self.map_name.write(out);
        self.players.write(out);
        self.start_time.write(out);
        self.duration.write(out);
        self.game_seed.write(out);
        proof {
            assert(out@ =~= old(out)@ + Self::spec_enc(self.deep_view()));
        }
    }

    fn read(b: &[u8], pos: usize) -> (r: Option<(ReplayMetadata, usize)>) {
        let r = <(String, (String, (Vec<PlayerReplayInfo>, (u64, (u64, u64))))) as Wire>::read(b, pos);
        proof {
            assert forall|v: (Seq<char>, Seq<char>, Seq<(u8, Seq<char>, (u8, u8, u8, u8), Seq<char>, bool)>, u64, u64, u64)| #[trigger] bytes_at(b@, pos as int, Self::spec_enc(v)) implies
                bytes_at(b@, pos as int, <(String, (String, (Vec<PlayerReplayInfo>, (u64, (u64, u64))))) as Wire>::spec_enc((v.0, (v.1, (v.2, (v.3, (v.4, v.5))))))) by {
            }
        }
        match r {
            Some(((f0, (f1, (f2, (f3, (f4, f5))))), q)) => Some((ReplayMetadata { version: f0, map_name: f1, players: f2, start_time: f3, duration: f4, game_seed: f5 }, q)),
            None => None,
        }
    }
}

/// A whole recorded game.
#[derive(Clone, Debug)]
pub struct GameReplay {
    /// Metadata.
    pub metadata: ReplayMetadata,
    /// Every advanced tick, in order.
    pub commands: Vec<TickCommands>,
}

impl DeepView for GameReplay {
    type V = ((Seq<char>, Seq<char>, Seq<(u8, Seq<char>, (u8, u8, u8, u8), Seq<char>, bool)>, u64, u64, u64), Seq<(u64, Seq<(u8, Seq<Seq<u8>>)>)>);

    open spec fn deep_view(&self) -> ((Seq<char>, Seq<char>, Seq<(u8, Seq<char>, (u8, u8, u8, u8), Seq<char>, bool)>, u64, u64, u64), Seq<(u64, Seq<(u8, Seq<Seq<u8>>)>)>) {
        (self.metadata.deep_view(), self.commands.deep_view())
    }
}

impl Wire for GameReplay {
    open spec fn spec_enc(v: ((Seq<char>, Seq<char>, Seq<(u8, Seq<char>, (u8, u8, u8, u8), Seq<char>, bool)>, u64, u64, u64), Seq<(u64, Seq<(u8, Seq<Seq<u8>>)>)>)) -> Seq<u8> {
        <(ReplayMetadata, Vec<TickCommands>) as Wire>::spec_enc((v.0, v.1))
    }

    proof fn lemma_enc_nonempty(v: ((Seq<char>, Seq<char>, Seq<(u8, Seq<char>, (u8, u8, u8, u8), Seq<char>, bool)>, u64, u64, u64), Seq<(u64, Seq<(u8, Seq<Seq<u8>>)>)>)) {
        <(ReplayMetadata, Vec<TickCommands>) as Wire>::lemma_enc_nonempty((v.0, v.1));
    }

    proof fn lemma_enc_unique(s: Seq<u8>, pos: int, v1: ((Seq<char>, Seq<char>, Seq<(u8, Seq<char>, (u8, u8, u8, u8), Seq<char>, bool)>, u64, u64, u64), Seq<(u64, Seq<(u8, Seq<Seq<u8>>)>)>), v2: ((Seq<char>, Seq<char>, Seq<(u8, Seq<char>, (u8, u8, u8, u8), Seq<char>, bool)>, u64, u64, u64), Seq<(u64, Seq<(u8, Seq<Seq<u8>>)>)>)) {
        <(ReplayMetadata, Vec<TickCommands>) as Wire>::lemma_enc_unique(s, pos, (v1.0, v1.1), (v2.0, v2.1));
    }

    fn write(&self, out: &mut Vec<u8>) {
        self.metadata.write(out);
        self.commands.write(out);
        proof {
            assert(out@ =~= old(out)@ + Self::spec_enc(self.deep_view()));
        }
    }

    fn read(b: &[u8], pos: usize) -> (r: Option<(GameReplay, usize)>) {
        let r = <(ReplayMetadata, Vec<TickCommands>) as Wire>::read(b, pos);
        proof {
            assert forall|v: ((Seq<char>, Seq<char>, Seq<(u8, Seq<char>, (u8, u8, u8, u8), Seq<char>, bool)>, u64, u64, u64), Seq<(u64, Seq<(u8, Seq<Seq<u8>>)>)>)| #[trigger] bytes_at(b@, pos as int, Self::spec_enc(v)) implies
                bytes_at(b@, pos as int, <(ReplayMetadata, Vec<TickCommands>) as Wire>::spec_enc((v.0, v.1))) by {
            }
        }
        match r {
            Some(((f0, f1), q)) => Some((GameReplay { metadata: f0, commands: f1 }, q)),
            None => None,
        }
    }
}

/// Model of a [`TickCommands`].
pub type TickModel = (u64, Seq<(u8, Seq<Seq<u8>>)>);

/// Model of a [`GameReplay`]: metadata and the recorded ticks.
pub type ReplayModel = (
    (Seq<char>, Seq<char>, Seq<(u8, Seq<char>, (u8, u8, u8, u8), Seq<char>, bool)>, u64, u64, u64),
    Seq<TickModel>,
);

/// The team colour of player `id`: blue, red, green and yellow for the
/// first four players, white for the others.
pub open spec fn color_of(id: u8) -> Rgba {
    if id == 0 {
        Rgba { r: 0, g: 0, b: 255, a: 255 }
    } else if id == 1 {
        Rgba { r: 255, g: 0, b: 0, a: 255 }
    } else if id == 2 {
        Rgba { r: 0, g: 255, b: 0, a: 255 }
    } else if id == 3 {
        Rgba { r: 255, g: 255, b: 0, a: 255 }
    } else {
        Rgba { r: 255, g: 255, b: 255, a: 255 }
    }
}

/// The colour a recorded game shows player `id` in.
pub fn player_color(id: u8) -> (r: Rgba)
    ensures
        r == color_of(id),
{
    match id {
        0 => Rgba { r: 0, g: 0, b: 255, a: 255 },
        1 => Rgba { r: 255, g: 0, b: 0, a: 255 },
        2 => Rgba { r: 0, g: 255, b: 0, a: 255 },
        3 => Rgba { r: 255, g: 255, b: 0, a: 255 },
        _ => Rgba { r: 255, g: 255, b: 255, a: 255 },
    }
}

/// Why a replay could not be saved or loaded.
#[derive(Clone, Copy, Debug, PartialEq, Eq, Structural)]
pub enum PersistenceError {
    /// Reading or writing the storage failed.
    Io,
    /// The bytes are not a saved replay.
    Corrupt,
}

/// Records the commands of every advanced tick while recording is on.
pub struct ReplayRecorder {
    replay: GameReplay,
    recording: bool,
}

impl ReplayRecorder {
    /// The log recorded so far.
    pub closed spec fn log(&self) -> ReplayModel {
        self.replay.deep_view()
    }

    pub closed spec fn is_recording(&self) -> bool {
        self.recording
    }

    /// A recorder, not yet recording, with an empty log of length zero.
    pub fn new(
        version: String,
        map_name: String,
        players: Vec<PlayerReplayInfo>,
        start_time: u64,
        game_seed: u64,
    ) -> (r: ReplayRecorder)
        ensures
            !r.is_recording(),
            r.log() == ((version@, map_name@, players.deep_view(), start_time, 0u64, game_seed), Seq::<
                TickModel,
            >::empty()),
    {
        let metadata = ReplayMetadata { version, map_name, players, start_time, duration: 0, game_seed };
        let r = ReplayRecorder { replay: GameReplay { metadata, commands: Vec::new() }, recording: false };
        proof {
            assert(r.replay.commands.deep_view() =~= Seq::<TickModel>::empty());
        }
        r
    }

    /// Starts appending advanced ticks to the log.
    pub fn start_recording(&mut self)
        ensures
            final(self).is_recording(),
            final(self).log() == old(self).log(),
    {
        self.recording = true;
    }

    /// Stops recording; the duration becomes the time from the start to
    /// `now` (zero if `now` lies before the start).
    pub fn stop_recording(&mut self, now: u64)
        ensures
            !final(self).is_recording(),
            final(self).log().1 == old(self).log().1,
            ({
                let (m, f) = (old(self).log().0, final(self).log().0);
                &&& f.0 == m.0 && f.1 == m.1 && f.2 == m.2 && f.3 == m.3 && f.5 == m.5
                &&& f.4 == if now >= m.3 { (now - m.3) as u64 } else { 0u64 }
            }),
    {
        self.recording = false;
        let start = self.replay.metadata.start_time;
        self.replay.metadata.duration = if now >= start { now - start } else { 0 };
    }

    /// Appends one advanced tick, with the merged commands `advance` returned
    /// for it, when recording; otherwise does nothing.
    pub fn record_tick_commands(&mut self, tick: u64, player_commands: Vec<PlayerTickCommands>)
        ensures
            final(self).is_recording() == old(self).is_recording(),
            final(self).log().0 == old(self).log().0,
            final(self).log().1 == if old(self).is_recording() {
                old(self).log().1.push((tick, player_commands.deep_view()))
            } else {
                old(self).log().1
            },
    {
        if !self.recording {
            return;
        }
        let ghost prev = self.replay.commands.deep_view();
        self.replay.commands.push(TickCommands { tick, player_commands });
        proof {
            assert(self.replay.commands.deep_view() =~= prev.push((tick, player_commands.deep_view())));
        }
    }

    /// The log as one byte string.
    pub fn save_replay(&self) -> (r: Vec<u8>)
        ensures
            r@ == GameReplay::spec_enc(self.log()),
    {
        encode_all(&self.replay)
    }

    /// The replay that `data` holds; `Corrupt` if it holds none.
    pub fn load_replay(data: &[u8]) -> (r: Result<GameReplay, PersistenceError>)
        ensures
            match r {
                Ok(g) => GameReplay::spec_enc(g.deep_view()) == data@,
                Err(e) => e == PersistenceError::Corrupt && forall|v: ReplayModel|
                    GameReplay::spec_enc(v) != data@,
            },
    {
        match decode_all::<GameReplay>(data) {
            Some(g) => Ok(g),
            None => Err(PersistenceError::Corrupt),
        }
    }
}

/// Plays a loaded replay back: hands out its ticks one by one, in recorded
/// order, for the simulation to apply.
pub struct ReplayPlayer {
    replay: GameReplay,
    next: usize,
}

impl ReplayPlayer {
    /// The replay being played.
    pub closed spec fn log(&self) -> ReplayModel {
        self.replay.deep_view()
    }

    /// How many ticks were handed out so far.
    pub closed spec fn position(&self) -> nat {
        self.next as nat
    }

    pub fn new(replay: GameReplay) -> (r: ReplayPlayer)
        ensures
            r.log() == replay.deep_view(),
            r.position() == 0,
    {
        ReplayPlayer { replay, next: 0 }
    }

    /// The seed the game was started with.
    pub fn seed(&self) -> (r: u64)
        ensures
            r == self.log().0.5,
    {
        self.replay.metadata.game_seed
    }

    /// The next recorded tick and its commands, or `None` at the end.
    pub fn next_tick(&mut self) -> (r: Option<(u64, Vec<PlayerTickCommands>)>)
        requires
            old(self).position() <= old(self).log().1.len(),
        ensures
            final(self).log() == old(self).log(),
            final(self).position() <= final(self).log().1.len(),
            old(self).position() < old(self).log().1.len() ==> (r matches Some(t) && t.deep_view()
                == old(self).log().1[old(self).position() as int] && final(self).position()
                == old(self).position() + 1),
            old(self).position() == old(self).log().1.len() ==> (r is None && final(self).position()
                == old(self).position()),
    {
        if self.next >= self.replay.commands.len() {
            return None;
        }
        let entry = &self.replay.commands[self.next];
        let mut merged: Vec<PlayerTickCommands> = Vec::new();
        let mut i: usize = 0;
        while i < entry.player_commands.len()
            invariant
                i <= entry.player_commands@.len(),
                merged.deep_view() == entry.player_commands.deep_view().take(i as int),
            decreases entry.player_commands@.len() - i,
        {
            let pc = &entry.player_commands[i];
            let copy = PlayerTickCommands { player_id: pc.player_id, commands: copy_commands(&pc.commands) };
            let ghost prev = merged.deep_view();
            merged.push(copy);
            proof {
                assert(merged.deep_view() =~= prev.push(copy.deep_view()));
                assert(merged.deep_view() =~= entry.player_commands.deep_view().take(i + 1));
            }
            i = i + 1;
        }
        proof {
            assert(entry.player_commands.deep_view().take(i as int) =~= entry.player_commands.deep_view());
        }
        let tick = entry.tick;
        self.next = self.next + 1;
        Some((tick, merged))
    }
}

/// The metadata of the replay that `data` holds; `Corrupt` if it holds none.
pub fn get_replay_metadata(data: &[u8]) -> (r: Result<ReplayMetadata, PersistenceError>)
    ensures
        r matches Ok(m) ==> exists|g: ReplayModel| #[trigger] GameReplay::spec_enc(g) == data@ && g.0
            == m.deep_view(),
        r matches Err(e) ==> e == PersistenceError::Corrupt && forall|v: ReplayModel|
            GameReplay::spec_enc(v) != data@,
{
    match ReplayRecorder::load_replay(data) {
        Ok(g) => {
            let ghost whole = g.deep_view();
            let m = g.metadata;
            proof {
                assert(GameReplay::spec_enc(whole) == data@ && whole.0 == m.deep_view());
            }
            Ok(m)
        },
        Err(e) => Err(e),
    }
}

/// Loading what was saved gives the log back, metadata included: a byte
/// string that decodes as `loaded` and is the saved form of `log` means
/// `loaded == log`.
pub proof fn lemma_load_save(log: ReplayModel, loaded: ReplayModel)
    requires
        GameReplay::spec_enc(loaded) == GameReplay::spec_enc(log),
        GameReplay::spec_enc(log).len() <= u64::MAX,
    ensures
        loaded == log,
{
    lemma_enc_injective::<GameReplay>(loaded, log);
}

/// The state of a simulation started from `s0` after each recorded tick in
/// turn was applied.
pub open spec fn run<S>(ticks: Seq<TickModel>, apply: spec_fn(S, TickModel) -> S, s0: S) -> S
    decreases ticks.len(),
{
    if ticks.len() == 0 {
        s0
    } else {
        apply(run(ticks.drop_last(), apply, s0), ticks.last())
    }
}

/// The checksum after each tick of a run.
pub open spec fn run_checksums<S>(
    ticks: Seq<TickModel>,
    apply: spec_fn(S, TickModel) -> S,
    checksum: spec_fn(S) -> u32,
    s0: S,
) -> Seq<u32> {
    Seq::new(ticks.len(), |i: int| checksum(run(ticks.take(i + 1), apply, s0)))
}

/// Replaying a loaded log through a deterministic simulation, started from
/// the state its seed gives, yields tick by tick the checksums of the run
/// that recorded it.
pub proof fn lemma_replay_reproduces<S>(
    log: ReplayModel,
    loaded: ReplayModel,
    init: spec_fn(u64) -> S,
    apply: spec_fn(S, TickModel) -> S,
    checksum: spec_fn(S) -> u32,
)
    requires
        GameReplay::spec_enc(loaded) == GameReplay::spec_enc(log),
        GameReplay::spec_enc(log).len() <= u64::MAX,
    ensures
        run_checksums(loaded.1, apply, checksum, init(loaded.0.5)) == run_checksums(
            log.1,
            apply,
            checksum,
            init(log.0.5),
        ),
{
    lemma_load_save(log, loaded);
}

} // verus!
