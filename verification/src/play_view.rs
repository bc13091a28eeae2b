//! The three modes of the central view and their tab labels.

use vstd::prelude::*;

verus! {

/// Central view mode: static piano roll, one row per channel, or the playback screen.
#[derive(Debug, Clone, Copy, PartialEq, Eq, Structural)]
pub enum CentralView {
    ChannelNotes,
    PianoRoll,
    PlayView,
}

impl Default for CentralView {
    /// The channel-notes view.
    fn default() -> (r: Self)
        ensures
            r == CentralView::ChannelNotes,
    {
        CentralView::ChannelNotes
    }
}

impl CentralView {
    /// Tab label of the mode.
    pub fn label(self) -> (r: &'static str)
        ensures
            r@ == (match self {
                CentralView::PianoRoll => "Piano Roll"@,
                CentralView::ChannelNotes => "Channel Notes"@,
                CentralView::PlayView => "PlayView"@,
            }),
    {
        match self {
            CentralView::PianoRoll => "Piano Roll",
            CentralView::ChannelNotes => "Channel Notes",
            CentralView::PlayView => "PlayView",
        }
    }
}

} // verus!
