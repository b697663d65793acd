//! The LibreSplit (`.json`) side: the split file the converter produces.

use vstd::prelude::*;
use crate::icon::spec_convert_icon;
use crate::livesplit::{LiveSplitFile, Segment};

verus! {

/// A LibreSplit split file.
pub struct LibreSplitFile {
    pub name: String,
    pub category: String,
    pub icon: String,
    pub attempt_count: u32,
    pub finished_count: u32,
    pub splits: Vec<Split>,
    pub width: u32,
    pub height: u32,
}

/// One split of a LibreSplit file.
pub struct Split {
    pub title: String,
    pub icon: String,
    pub time: Time,
    pub best_time: Time,
    pub best_segment: Time,
}

/// A real-time and a game-time value, each a LibreSplit duration or `-`.
pub struct Time {
    pub real_time: String,
    pub game_time: String,
}

/// The icon LibreSplit gets: the converted icon, or nothing when it cannot be converted.
pub open spec fn icon_or_empty(source: Seq<char>) -> Seq<char> {
    match spec_convert_icon(source) {
        Ok(uri) => uri,
        Err(_) => Seq::empty(),
    }
}

/// A split made from a segment.
pub open spec fn split_from(split: Split, seg: Segment) -> bool {
    &&& split.title == seg.name
    &&& split.icon@ == icon_or_empty(seg.icon@)
    &&& split.time == seg.split_time
    &&& split.best_time == seg.best_time
    &&& split.best_segment == seg.best_segment
}

/// The width below which the LibreSplit window does not shrink.
pub const MIN_WIDTH: u32 = 60;

/// The height below which the LibreSplit window does not shrink.
pub const MIN_HEIGHT: u32 = 80;

impl Time {
    /// A copy of the two times.
    pub fn copy(&self) -> (res: Time)
        ensures
            res == *self,
    {
        Time { real_time: self.real_time.clone(), game_time: self.game_time.clone() }
    }
}

impl LibreSplitFile {
    /// The icon to use for an icon text: the converted icon, or the empty text.
    fn icon_or_empty(source: &str) -> (res: String)
        ensures
            res@ == icon_or_empty(source@),
    {
        match Self::convert_icon(source) {
            Ok(uri) => uri,
            Err(_) => String::new(),
        }
    }

    /// The LibreSplit file for a LiveSplit file: the game and category names, the attempt
    /// counts, one split per segment in order with its converted icon and times, and the
    /// minimum window size.
    pub fn from_livesplit(lss: LiveSplitFile) -> (res: Self)
        ensures
            res.name == lss.game_name,
            res.category == lss.category_name,
            res.icon@ == icon_or_empty(lss.game_icon@),
            res.attempt_count == lss.attempt_count,
            res.finished_count == lss.finished_count,
            res.splits@.len() == lss.segments@.len(),
            forall|i: int| 0 <= i < res.splits@.len() ==> split_from(#[trigger] res.splits@[i], lss.segments@[i]),
            res.width == MIN_WIDTH,
            res.height == MIN_HEIGHT,
    {
        let icon = Self::icon_or_empty(lss.game_icon.as_str());
        let mut splits: Vec<Split> = Vec::new();
        let mut i: usize = 0;
        while i < lss.segments.len()
            invariant
                i <= lss.segments@.len(),
                splits@.len() == i,
                forall|j: int| 0 <= j < i ==> split_from(#[trigger] splits@[j], lss.segments@[j]),
            decreases lss.segments@.len() - i,
        {
            let seg = &lss.segments[i];
            let split = Split {
                title: seg.name.clone(),
                icon: Self::icon_or_empty(seg.icon.as_str()),
                time: seg.split_time.copy(),
                best_time: seg.best_time.copy(),
                best_segment: seg.best_segment.copy(),
            };
            splits.push(split);
            i = i + 1;
        }
        LibreSplitFile {
            name: lss.game_name,
            category: lss.category_name,
            icon,
            attempt_count: lss.attempt_count,
            finished_count: lss.finished_count,
            splits,
            width: MIN_WIDTH,
            height: MIN_HEIGHT,
        }
    }
}

} // verus!
