use vstd::prelude::*;

verus! {

/// One exported note: its start tick, its duration word and its pitch name.
pub struct Note {
    pub start: u32,
    pub length: String,
    pub pitch: String,
}

/// The exported note list of one track.
pub struct Output {
    pub track: String,
    pub notes: Vec<Note>,
}

impl View for Note {
    type V = (u32, Seq<char>, Seq<char>);

    open spec fn view(&self) -> (u32, Seq<char>, Seq<char>) {
        (self.start, self.length@, self.pitch@)
    }
}

impl Output {
    /// The notes as plain values, in list order.
    pub open spec fn notes_view(&self) -> Seq<(u32, Seq<char>, Seq<char>)> {
        self.notes@.map_values(|n: Note| n@)
    }

    /// An empty note list for the track named `track`.
    pub fn new(track: String) -> (r: Self)
        ensures
            r.track == track,
            r.notes@.len() == 0,
    {
        Output { track, notes: Vec::new() }
    }

    /// Appends a note at the end of the list.
    pub fn add_note(&mut self, start: u32, length: String, pitch: String)
        ensures
            final(self).track == old(self).track,
            final(self).notes@ == old(self).notes@.push(Note { start, length, pitch }),
            final(self).notes_view() == old(self).notes_view().push((start, length@, pitch@)),
    {
        let ghost before = self.notes_view();
        self.notes.push(Note { start, length, pitch });
        proof {
            assert(self.notes_view() =~= before.push((start, length@, pitch@)));
        }
    }
}

} // verus!
