use vstd::prelude::*;

use crate::convert::{
    bass_range, decimal, duration_word, is_bass_range, note_to_pitch, pitch_name, push_decimal,
    quantize, ticks_to_duration,
};
use crate::export::Output;

verus! {

/// What a decoded track event is, as far as extraction and classification read it.
pub enum EventKind {
    NoteOn { channel: u8, key: u8, velocity: u8 },
    NoteOff { channel: u8, key: u8, velocity: u8 },
    TrackName(Vec<u8>),
    Other,
}

/// A decoded track event with its offset in ticks from the previous event.
pub struct TrackEvent {
    pub delta: u32,
    pub kind: EventKind,
}

/// A closed note: absolute start tick, length in ticks, and key.
#[derive(PartialEq, Eq, Structural, Clone, Copy, Debug)]
pub struct NoteSpan {
    pub start_tick: u32,
    pub duration_ticks: u32,
    pub key: u8,
}

/// The key an event starts sounding: a note-on with a positive velocity.
pub open spec fn opened_key(kind: EventKind) -> Option<u8> {
    match kind {
        EventKind::NoteOn { key, velocity, .. } => if velocity > 0 { Some(key) } else { None },
        _ => None,
    }
}

/// The key an event releases: a note-off, or a note-on with velocity zero.
pub open spec fn closed_key(kind: EventKind) -> Option<u8> {
    match kind {
        EventKind::NoteOn { key, velocity, .. } => if velocity == 0 { Some(key) } else { None },
        EventKind::NoteOff { key, .. } => Some(key),
        _ => None,
    }
}

/// The absolute tick after the events of `s`: the sum of their deltas.
pub open spec fn tick_after(s: Seq<TrackEvent>) -> int
    decreases s.len(),
{
    if s.len() == 0 {
        0
    } else {
        tick_after(s.drop_last()) + s.last().delta
    }
}

/// The active-note table after the events of `s`: each sounding key with the
/// tick at which it was last turned on.
pub open spec fn active_after(s: Seq<TrackEvent>) -> Map<u8, int>
    decreases s.len(),
{
    if s.len() == 0 {
        Map::empty()
    } else {
        let prev = active_after(s.drop_last());
        let kind = s.last().kind;
        match opened_key(kind) {
            Some(k) => prev.insert(k, tick_after(s)),
            None => match closed_key(kind) {
                Some(k) => prev.remove(k),
                None => prev,
            },
        }
    }
}

/// The span that a release of `key` at `tick` closes, for a key turned on at `start`.
pub open spec fn span_of(start: int, tick: int, key: u8) -> NoteSpan {
    NoteSpan { start_tick: start as u32, duration_ticks: (tick - start) as u32, key }
}

/// The spans closed by the events of `s`, in the order of their closing events.
/// A release of a key that is not sounding closes nothing; keys still sounding
/// at the end close nothing.
pub open spec fn spans_after(s: Seq<TrackEvent>) -> Seq<NoteSpan>
    decreases s.len(),
{
    if s.len() == 0 {
        Seq::empty()
    } else {
        let prev = spans_after(s.drop_last());
        let table = active_after(s.drop_last());
        match closed_key(s.last().kind) {
            Some(k) => if table.contains_key(k) {
                prev.push(span_of(table[k], tick_after(s), k))
            } else {
                prev
            },
            None => prev,
        }
    }
}

/// Every start tick in the table is at most the current tick.
pub proof fn lemma_active_before_now(s: Seq<TrackEvent>)
    ensures
        forall|k: u8| #[trigger] active_after(s).contains_key(k) ==> 0 <= active_after(s)[k] <= tick_after(s),
    decreases s.len(),
{
    lemma_tick_nonneg(s);
    if s.len() > 0 {
        let p = s.drop_last();
        lemma_active_before_now(p);
        assert(tick_after(s) >= tick_after(p));
        assert forall|k: u8| #[trigger] active_after(s).contains_key(k) implies 0 <= active_after(s)[k]
            <= tick_after(s) by {
            if active_after(p).contains_key(k) {
                assert(active_after(p)[k] <= tick_after(p));
            }
        }
    }
}

/// The tick after a prefix is at most the tick after the whole sequence.
pub proof fn lemma_tick_monotone(s: Seq<TrackEvent>, i: int)
    requires
        0 <= i <= s.len(),
    ensures
        0 <= tick_after(s.take(i)) <= tick_after(s),
    decreases s.len() - i,
{
    if i < s.len() {
        lemma_tick_monotone(s, i + 1);
        assert(s.take(i + 1).drop_last() =~= s.take(i));
        lemma_tick_nonneg(s.take(i));
    } else {
        assert(s.take(i) =~= s);
        lemma_tick_nonneg(s);
    }
}

proof fn lemma_tick_nonneg(s: Seq<TrackEvent>)
    ensures
        tick_after(s) >= 0,
    decreases s.len(),
{
    if s.len() > 0 {
        lemma_tick_nonneg(s.drop_last());
    }
}

/// The closed note spans of a track, in the order their closing events come;
/// `None` when the track's absolute ticks do not fit in `u32`.
pub fn note_spans(events: &Vec<TrackEvent>) -> (r: Option<Vec<NoteSpan>>)
    ensures
        r is None <==> tick_after(events@) > u32::MAX,
        r matches Some(v) ==> v@ == spans_after(events@),
{
    let mut table: Vec<Option<u32>> = Vec::new();
    while table.len() < 256
        invariant
            table@.len() <= 256,
            forall|j: int| 0 <= j < table@.len() ==> table@[j] is None,
        decreases 256 - table@.len(),
    {
        table.push(None);
    }
    let mut spans: Vec<NoteSpan> = Vec::new();
    let mut tick: u32 = 0;
    let mut i: usize = 0;
    proof {
        assert(events@.take(0) =~= Seq::<TrackEvent>::empty());
    }
    while i < events.len()
        invariant
            i <= events@.len(),
            table@.len() == 256,
            tick as int == tick_after(events@.take(i as int)),
            spans@ == spans_after(events@.take(i as int)),
            forall|k: u8| #[trigger] table@[k as int] == (if active_after(events@.take(i as int)).contains_key(k) {
                Some(active_after(events@.take(i as int))[k] as u32)
            } else {
                None::<u32>
            }),
        decreases events@.len() - i,
    {
        let ghost pre = events@.take(i as int);
        let ghost cur = events@.take(i as int + 1);
        proof {
            assert(cur.drop_last() =~= pre);
            lemma_active_before_now(pre);
        }
        let e = &events[i];
        match tick.checked_add(e.delta) {
            None => {
                proof {
                    lemma_tick_monotone(events@, i as int + 1);
                }
                return None;
            },
            Some(t) => {
                tick = t;
            },
        }
        match &e.kind {
            EventKind::NoteOn { key, velocity, .. } if *velocity > 0 => {
                table.set(*key as usize, Some(tick));
            },
            EventKind::NoteOn { key, .. } | EventKind::NoteOff { key, .. } => {
                let k = *key as usize;
                if let Some(start) = table[k] {
                    spans.push(NoteSpan { start_tick: start, duration_ticks: tick - start, key: *key });
                    table.set(k, None);
                }
            },
            _ => {},
        }
        proof {
            assert(spans@ =~= spans_after(cur));
        }
        i = i + 1;
    }
    proof {
        assert(events@.take(i as int) =~= events@);
    }
    Some(spans)
}


/// The text that a byte string encodes as UTF-8, or `None` where it is not valid UTF-8.
pub uninterp spec fn utf8_text(b: Seq<u8>) -> Option<Seq<char>>;

/// The lower-case form of a text, character by character as Unicode defines it.
pub uninterp spec fn lower_of(s: Seq<char>) -> Seq<char>;

/// Relies on `String::from_utf8`: it accepts exactly the valid UTF-8 byte
/// strings and returns the text they encode.
#[verifier::external_body]
fn decode_utf8(b: &Vec<u8>) -> (r: Option<String>)
    ensures
        opt_text(&r) == utf8_text(b@),
{
    String::from_utf8(b.clone()).ok()
}

/// Relies on `str::to_lowercase`: the result depends on the characters alone.
#[verifier::external_body]
fn lowercase(s: &str) -> (r: String)
    ensures
        r@ == lower_of(s@),
{
    s.to_lowercase()
}

/// Relies on `str::contains` with a `&str` pattern: whether `needle` occurs as a
/// contiguous run of characters in `haystack`.
#[verifier::external_body]
fn str_contains(haystack: &str, needle: &str) -> (r: bool)
    ensures
        r == has_substring(haystack@, needle@),
{
    haystack.contains(needle)
}

/// Whether `n` occurs in `h` as a contiguous run.
pub open spec fn has_substring(h: Seq<char>, n: Seq<char>) -> bool {
    exists|i: int| 0 <= i && i + n.len() <= h.len() && #[trigger] h.subrange(i, i + n.len()) == n
}

/// The text of an optional string.
pub open spec fn opt_text(o: &Option<String>) -> Option<Seq<char>> {
    match o {
        Some(s) => Some(s@),
        None => None,
    }
}

/// The name of a track: the text of its first track-name event whose bytes are
/// valid UTF-8; later names are ignored.
pub open spec fn track_name(s: Seq<TrackEvent>) -> Option<Seq<char>>
    decreases s.len(),
{
    if s.len() == 0 {
        None
    } else {
        match s[0].kind {
            EventKind::TrackName(b) => if utf8_text(b@) is Some {
                utf8_text(b@)
            } else {
                track_name(s.skip(1))
            },
            _ => track_name(s.skip(1)),
        }
    }
}

/// The number of note-ons with a positive velocity in `s`.
pub open spec fn note_count(s: Seq<TrackEvent>) -> nat
    decreases s.len(),
{
    if s.len() == 0 {
        0
    } else {
        note_count(s.drop_last()) + if opened_key(s.last().kind) is Some { 1nat } else { 0nat }
    }
}

/// The number of note-ons with a positive velocity in `s` whose key is in the bass range.
pub open spec fn bass_count(s: Seq<TrackEvent>) -> nat
    decreases s.len(),
{
    if s.len() == 0 {
        0
    } else {
        bass_count(s.drop_last()) + if opened_key(s.last().kind) matches Some(k) && bass_range(
            k as int,
        ) {
            1nat
        } else {
            0nat
        }
    }
}

/// The word a lower-cased track name is searched for.
pub open spec fn bass_word() -> Seq<char> {
    seq!['b', 'a', 's', 's']
}

/// A lower-cased name marks a bass track when it contains `bass`.
pub open spec fn bass_by_name(lowered: Option<Seq<char>>) -> bool {
    lowered matches Some(n) && has_substring(n, bass_word())
}

/// Note counts mark a bass track when more than 70% of its notes lie in the bass range.
pub open spec fn bass_by_range(bass: int, total: int) -> bool {
    total > 0 && 10 * bass > 7 * total
}

/// The lower-case form of an optional name.
pub open spec fn lowered(name: Option<Seq<char>>) -> Option<Seq<char>> {
    match name {
        Some(n) => Some(lower_of(n)),
        None => None,
    }
}

/// Whether the events of a track make it a bass candidate.
pub open spec fn is_candidate(s: Seq<TrackEvent>) -> bool {
    bass_by_name(lowered(track_name(s))) || bass_by_range(bass_count(s) as int, note_count(s) as int)
}

/// Summary of a track: index, name, bass-range note count, note count.
pub open spec fn summary(index: int, s: Seq<TrackEvent>) -> (int, Option<Seq<char>>, int, int) {
    (index, track_name(s), bass_count(s) as int, note_count(s) as int)
}

/// The summaries of the candidate tracks, in track order.
pub open spec fn candidates(tracks: Seq<Seq<TrackEvent>>) -> Seq<(int, Option<Seq<char>>, int, int)>
    decreases tracks.len(),
{
    if tracks.len() == 0 {
        Seq::empty()
    } else {
        let prev = candidates(tracks.drop_last());
        if is_candidate(tracks.last()) {
            prev.push(summary(tracks.len() - 1, tracks.last()))
        } else {
            prev
        }
    }
}

/// The name an extracted track is exported under: its own, else `Track <index>`.
pub open spec fn display_name(index: int, s: Seq<TrackEvent>) -> Seq<char> {
    match track_name(s) {
        Some(n) => n,
        None => seq!['T', 'r', 'a', 'c', 'k', ' '] + decimal(index as nat),
    }
}

/// The exported notes for closed spans at `tpq` ticks per quarter note.
pub open spec fn exported(spans: Seq<NoteSpan>, tpq: int) -> Seq<(u32, Seq<char>, Seq<char>)> {
    spans.map_values(
        |sp: NoteSpan|
            (sp.start_tick, duration_word(quantize(sp.duration_ticks as int, tpq)), pitch_name(sp.key)),
    )
}

/// The first name of a track, as `track_name` defines it.
pub fn first_track_name(events: &Vec<TrackEvent>) -> (r: Option<String>)
    ensures
        opt_text(&r) == track_name(events@),
{
    let mut i: usize = 0;
    proof {
        assert(events@.skip(0) =~= events@);
    }
    while i < events.len()
        invariant
            i <= events@.len(),
            track_name(events@) == track_name(events@.skip(i as int)),
        decreases events@.len() - i,
    {
        proof {
            assert(events@.skip(i as int).skip(1) =~= events@.skip(i as int + 1));
            assert(events@.skip(i as int)[0] == events@[i as int]);
        }
        if let EventKind::TrackName(bytes) = &events[i].kind {
            let decoded = decode_utf8(bytes);
            if decoded.is_some() {
                return decoded;
            }
        }
        i = i + 1;
    }
    None
}

/// The bass-range note count and the note count of a track.
pub fn count_notes(events: &Vec<TrackEvent>) -> (r: (usize, usize))
    ensures
        r.0 == bass_count(events@),
        r.1 == note_count(events@),
{
    let mut bass: usize = 0;
    let mut total: usize = 0;
    let mut i: usize = 0;
    proof {
        assert(events@.take(0) =~= Seq::<TrackEvent>::empty());
    }
    while i < events.len()
        invariant
            i <= events@.len(),
            bass <= total <= i,
            bass == bass_count(events@.take(i as int)),
            total == note_count(events@.take(i as int)),
        decreases events@.len() - i,
    {
        proof {
            assert(events@.take(i as int + 1).drop_last() =~= events@.take(i as int));
        }
        if let EventKind::NoteOn { key, velocity, .. } = &events[i].kind {
            if *velocity > 0 {
                total = total + 1;
                if is_bass_range(*key) {
                    bass = bass + 1;
                }
            }
        }
        i = i + 1;
    }
    proof {
        assert(events@.take(i as int) =~= events@);
    }
    (bass, total)
}

/// Whether a track is a bass candidate, from its lower-cased name and its counts.
pub fn is_bass_candidate(lowered_name: &Option<String>, bass_note_count: usize, total_note_count: usize) -> (r: bool)
    ensures
        r == (bass_by_name(opt_text(lowered_name)) || bass_by_range(
            bass_note_count as int,
            total_note_count as int,
        )),
{
    let by_name = match lowered_name {
        Some(n) => {
            proof {
                reveal_strlit("bass");
                assert("bass"@ =~= bass_word());
            }
            str_contains(n.as_str(), "bass")
        },
        None => false,
    };
    let by_range = total_note_count > 0 && (bass_note_count as u128) * 10 > (total_note_count as u128) * 7;
    by_name || by_range
}

/// Builds the exported note list from closed spans, in span order.
pub fn assemble(track_name: String, spans: &Vec<NoteSpan>, tpq: u16) -> (r: Output)
    requires
        tpq > 0,
    ensures
        r.track == track_name,
        r.notes_view() == exported(spans@, tpq as int),
{
    let mut output = Output::new(track_name);
    let mut i: usize = 0;
    while i < spans.len()
        invariant
            i <= spans@.len(),
            tpq > 0,
            output.track == track_name,
            output.notes_view() == exported(spans@.take(i as int), tpq as int),
        decreases spans@.len() - i,
    {
        let sp = spans[i];
        let length = ticks_to_duration(sp.duration_ticks, tpq);
        let pitch = note_to_pitch(sp.key);
        output.add_note(sp.start_tick, length, pitch);
        proof {
            assert(exported(spans@.take(i as int + 1), tpq as int) =~= exported(
                spans@.take(i as int),
                tpq as int,
            ).push((sp.start_tick, length@, pitch@)));
        }
        i = i + 1;
    }
    proof {
        assert(spans@.take(i as int) =~= spans@);
    }
    output
}

/// The name `Track <index>` given to a track without one.
fn placeholder_name(index: usize) -> (r: String)
    ensures
        r@ == seq!['T', 'r', 'a', 'c', 'k', ' '] + decimal(index as nat),
{
    proof {
        reveal_strlit("Track ");
    }
    let mut s = String::from_str("Track ");
    push_decimal(&mut s, index);
    s
}

/// The timing of a file: ticks per quarter note, or SMPTE frames per second and ticks per frame.
#[derive(PartialEq, Eq, Structural, Clone, Copy, Debug)]
pub enum Timing {
    Metrical(u16),
    Timecode(u8, u8),
}

/// The ticks per quarter note used for a timing: its own where it is metrical
/// and positive, 480 otherwise.
pub open spec fn tpq_of(timing: Timing) -> int {
    match timing {
        Timing::Metrical(t) => if t > 0 { t as int } else { 480 },
        Timing::Timecode(..) => 480,
    }
}

/// Summary of a bass candidate track.
pub struct TrackInfo {
    pub index: usize,
    pub name: Option<String>,
    pub bass_note_count: usize,
    pub total_note_count: usize,
}

impl View for TrackInfo {
    type V = (int, Option<Seq<char>>, int, int);

    open spec fn view(&self) -> (int, Option<Seq<char>>, int, int) {
        (self.index as int, opt_text(&self.name), self.bass_note_count as int, self.total_note_count as int)
    }
}

/// Why notes could not be extracted from a track.
#[derive(PartialEq, Eq, Structural, Clone, Copy, Debug)]
pub enum ExtractError {
    /// The track index is not below the number of tracks.
    TrackNotFound,
    /// The absolute ticks of the track do not fit in `u32`.
    TickOverflow,
}

/// A decoded MIDI file: its timing and each track's events.
pub struct MidiParser {
    pub timing: Timing,
    pub tracks: Vec<Vec<TrackEvent>>,
}

impl MidiParser {
    /// The events of each track, in order.
    pub open spec fn tracks_view(&self) -> Seq<Seq<TrackEvent>> {
        self.tracks@.map_values(|t: Vec<TrackEvent>| t@)
    }

    /// A file with the given timing and tracks.
    pub fn new(timing: Timing, tracks: Vec<Vec<TrackEvent>>) -> (r: Self)
        ensures
            r.timing == timing,
            r.tracks == tracks,
    {
        MidiParser { timing, tracks }
    }

    /// The ticks per quarter note of the file, 480 where its timing gives none.
    pub fn get_ticks_per_quarter(&self) -> (r: u16)
        ensures
            r == tpq_of(self.timing),
            r > 0,
    {
        match self.timing {
            Timing::Metrical(t) => if t > 0 { t } else { 480 },
            Timing::Timecode(..) => 480,
        }
    }

    /// The summaries of all tracks that qualify as bass tracks, in track order.
    pub fn find_bass_tracks(&self) -> (r: Vec<TrackInfo>)
        ensures
            r@.map_values(|t: TrackInfo| t@) == candidates(self.tracks_view()),
    {
        let mut infos: Vec<TrackInfo> = Vec::new();
        let mut i: usize = 0;
        proof {
            assert(self.tracks_view().take(0) =~= Seq::<Seq<TrackEvent>>::empty());
            assert(infos@.map_values(|t: TrackInfo| t@) =~= Seq::<(int, Option<Seq<char>>, int, int)>::empty());
        }
        while i < self.tracks.len()
            invariant
                i <= self.tracks@.len(),
                infos@.map_values(|t: TrackInfo| t@) == candidates(self.tracks_view().take(i as int)),
            decreases self.tracks@.len() - i,
        {
            let track = &self.tracks[i];
            let name = first_track_name(track);
            let lowered_name = match &name {
                Some(n) => Some(lowercase(n.as_str())),
                None => None,
            };
            let (bass, total) = count_notes(track);
            let ghost before = infos@;
            proof {
                let tv = self.tracks_view();
                assert(tv.take(i as int + 1).drop_last() =~= tv.take(i as int));
                assert(tv.take(i as int + 1).last() == track@);
                assert(opt_text(&lowered_name) == lowered(track_name(track@)));
            }
            if is_bass_candidate(&lowered_name, bass, total) {
                infos.push(TrackInfo { index: i, name, bass_note_count: bass, total_note_count: total });
                proof {
                    assert(infos@.map_values(|t: TrackInfo| t@) =~= before.map_values(|t: TrackInfo| t@).push(
                        infos@.last()@,
                    ));
                }
            }
            i = i + 1;
        }
        proof {
            assert(self.tracks_view().take(i as int) =~= self.tracks_view());
        }
        infos
    }

    /// The exported note list of track `track_index`: its spans mapped to start,
    /// duration word and pitch name, under the track's name.
    pub fn extract_notes(&self, track_index: usize) -> (r: Result<Output, ExtractError>)
        ensures
            r matches Err(ExtractError::TrackNotFound) <==> track_index >= self.tracks@.len(),
            r matches Err(ExtractError::TickOverflow) <==> track_index < self.tracks@.len() && tick_after(
                self.tracks@[track_index as int]@,
            ) > u32::MAX,
            r matches Ok(o) ==> o.track@ == display_name(track_index as int, self.tracks@[track_index as int]@)
                && o.notes_view() == exported(
                spans_after(self.tracks@[track_index as int]@),
                tpq_of(self.timing),
            ),
    {
        if track_index >= self.tracks.len() {
            return Err(ExtractError::TrackNotFound);
        }
        let track = &self.tracks[track_index];
        let tpq = self.get_ticks_per_quarter();
        let name = match first_track_name(track) {
            Some(n) => n,
            None => placeholder_name(track_index),
        };
        match note_spans(track) {
            None => Err(ExtractError::TickOverflow),
            Some(spans) => Ok(assemble(name, &spans, tpq)),
        }
    }
}

/// A note turned on at absolute tick `t0` and released at `t1 > t0` closes
/// exactly one span: it starts at `t0`, lasts `t1 - t0` ticks, and has the key.
pub proof fn lemma_single_note_round_trip(channel: u8, key: u8, velocity: u8, off_velocity: u8, t0: u32, t1: u32)
    requires
        velocity > 0,
        t0 < t1,
    ensures
        spans_after(
            seq![
                TrackEvent { delta: t0, kind: EventKind::NoteOn { channel, key, velocity } },
                TrackEvent { delta: (t1 - t0) as u32, kind: EventKind::NoteOff { channel, key, velocity: off_velocity } },
            ],
        ) == seq![NoteSpan { start_tick: t0, duration_ticks: (t1 - t0) as u32, key }],
{
    let on = TrackEvent { delta: t0, kind: EventKind::NoteOn { channel, key, velocity } };
    let off = TrackEvent { delta: (t1 - t0) as u32, kind: EventKind::NoteOff { channel, key, velocity: off_velocity } };
    let s = seq![on, off];
    let first = seq![on];
    assert(s.drop_last() =~= first);
    assert(first.drop_last() =~= Seq::<TrackEvent>::empty());
    assert(first.last() == on);
    assert(tick_after(Seq::<TrackEvent>::empty()) == 0);
    assert(active_after(Seq::<TrackEvent>::empty()) == Map::<u8, int>::empty());
    assert(spans_after(Seq::<TrackEvent>::empty()) == Seq::<NoteSpan>::empty());
    assert(opened_key(on.kind) == Some(key));
    assert(closed_key(on.kind) is None);
    assert(tick_after(first) == t0);
    assert(active_after(first) =~= Map::<u8, int>::empty().insert(key, t0 as int));
    assert(spans_after(first) == Seq::<NoteSpan>::empty());
    assert(tick_after(s) == t1);
    assert(spans_after(s) =~= seq![NoteSpan { start_tick: t0, duration_ticks: (t1 - t0) as u32, key }]);
}

/// A note-on that is never released closes nothing: after it, and after any
/// later events that do not release its key, the key is still sounding, the
/// spans closed before it are kept, and no span added since has its key.
pub proof fn lemma_unterminated_note(prefix: Seq<TrackEvent>, on: TrackEvent, rest: Seq<TrackEvent>, key: u8)
    requires
        opened_key(on.kind) == Some(key),
        forall|j: int| 0 <= j < rest.len() ==> closed_key(#[trigger] rest[j].kind) != Some(key),
    ensures
        active_after(prefix.push(on) + rest).contains_key(key),
        spans_after(prefix).len() <= spans_after(prefix.push(on) + rest).len(),
        spans_after(prefix.push(on) + rest).subrange(0, spans_after(prefix).len() as int) == spans_after(prefix),
        forall|j: int|
            spans_after(prefix).len() <= j < spans_after(prefix.push(on) + rest).len() ==> (#[trigger] spans_after(
                prefix.push(on) + rest,
            )[j]).key != key,
    decreases rest.len(),
{
    let s = prefix.push(on) + rest;
    if rest.len() == 0 {
        assert(s =~= prefix.push(on));
        assert(s.drop_last() =~= prefix);
        assert(spans_after(s) == spans_after(prefix));
        assert(spans_after(s).subrange(0, spans_after(prefix).len() as int) =~= spans_after(prefix));
    } else {
        let r = rest.drop_last();
        assert forall|j: int| 0 <= j < r.len() implies closed_key(#[trigger] r[j].kind) != Some(key) by {
            assert(r[j] == rest[j]);
        }
        lemma_unterminated_note(prefix, on, r, key);
        let p = prefix.push(on) + r;
        assert(s.drop_last() =~= p);
        assert(s.last() == rest[rest.len() - 1]);
        assert(closed_key(s.last().kind) != Some(key));
        let n = spans_after(prefix).len() as int;
        assert(spans_after(s).subrange(0, n) =~= spans_after(p).subrange(0, n));
        assert forall|j: int| n <= j < spans_after(s).len() implies (#[trigger] spans_after(s)[j]).key != key by {
            if j < spans_after(p).len() {
                assert(spans_after(s)[j] == spans_after(p)[j]);
            }
        }
    }
}

/// A second note-on of a sounding key replaces its start: after two note-ons
/// of one key and a release of it, the one span closed starts at the second.
pub proof fn lemma_note_on_overwrites(
    prefix: Seq<TrackEvent>,
    first: TrackEvent,
    second: TrackEvent,
    release: TrackEvent,
    key: u8,
)
    requires
        opened_key(first.kind) == Some(key),
        opened_key(second.kind) == Some(key),
        closed_key(release.kind) == Some(key),
        tick_after(prefix) + first.delta + second.delta + release.delta <= u32::MAX,
    ensures
        spans_after(prefix.push(first).push(second).push(release)) == spans_after(prefix).push(
            NoteSpan {
                start_tick: (tick_after(prefix) + first.delta + second.delta) as u32,
                duration_ticks: release.delta,
                key,
            },
        ),
{
    lemma_tick_nonneg(prefix);
    let a = prefix.push(first);
    let b = a.push(second);
    let c = b.push(release);
    assert(a.drop_last() =~= prefix);
    assert(b.drop_last() =~= a);
    assert(c.drop_last() =~= b);
    assert(spans_after(a) == spans_after(prefix));
    assert(spans_after(b) == spans_after(prefix));
    assert(a.last() == first);
    assert(b.last() == second);
    assert(c.last() == release);
    assert(closed_key(first.kind) is None);
    assert(closed_key(second.kind) is None);
    assert(tick_after(a) == tick_after(prefix) + first.delta);
    assert(tick_after(b) == tick_after(a) + second.delta);
    assert(tick_after(c) == tick_after(b) + release.delta);
    assert(active_after(b).contains_key(key));
    assert(active_after(b)[key] == tick_after(b));
    assert(spans_after(c) == spans_after(b).push(span_of(tick_after(b), tick_after(c), key)));
}

/// Classification reads nothing but the decoded tracks: any two candidate lists
/// that `find_bass_tracks` returns for the same file agree in order and content.
pub proof fn lemma_classification_idempotent(p: &MidiParser, r1: Seq<TrackInfo>, r2: Seq<TrackInfo>)
    requires
        r1.map_values(|t: TrackInfo| t@) == candidates(p.tracks_view()),
        r2.map_values(|t: TrackInfo| t@) == candidates(p.tracks_view()),
    ensures
        r1.map_values(|t: TrackInfo| t@) == r2.map_values(|t: TrackInfo| t@),
{
}

} // verus!
