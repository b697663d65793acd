//! Conversion of LiveSplit split files into LibreSplit split files.

pub mod external;
pub mod icon;
pub mod libresplit;
pub mod livesplit;
pub mod text;
pub mod time;
pub mod xml;

use vstd::prelude::*;
use crate::external::{parse_xml_document, spex_document};
use crate::libresplit::{LibreSplitFile, Split, icon_or_empty};
use crate::livesplit::{
    LiveSplitFile, Totals, best_text, header_text, livesplit_readable, personal_best_split,
    segment_icon, segment_name, segments_fold, spec_attempt_count, spec_finished_count, time_from,
};
use crate::time::missing_time;
use crate::xml::{XmlElement, child, children_named};

verus! {

/// Which times a LibreSplit run compares against.
#[derive(Clone, Copy, Debug, PartialEq, Eq, Structural)]
pub enum ComparisonMethod {
    RealTime,
    GameTime,
}

/// Why a text could not be converted.
pub enum ConversionError {
    /// The text is not XML; the message is the XML reader's.
    InvalidXml(String),
    /// A header element the reader takes as text (game name, category, icon, platform or
    /// attempt count) holds more than text, or the finished attempts do not fit in a `u32`.
    Unreadable,
}

/// The attribute names the LiveSplit reader looks up.
pub open spec fn reader_attribute_names() -> Seq<Seq<char>> {
    seq!["name"@, "id"@]
}

/// A split made from a `Segment` element with the given best totals.
pub open spec fn split_from_element(split: Split, seg: XmlElement, best: Totals) -> bool {
    &&& split.title@ == segment_name(seg)
    &&& split.icon@ == icon_or_empty(segment_icon(seg))
    &&& time_from(split.time, personal_best_split(seg))
    &&& time_from(split.best_segment, child(seg, "BestSegmentTime"@))
    &&& split.best_time.real_time@ == best_text(best.0)
    &&& split.best_time.game_time@ == best_text(best.1)
}

/// The split that stands in when a file has no `Segments` element.
pub open spec fn is_placeholder_split(split: Split) -> bool {
    &&& split.title@ == "No Splits Provided"@
    &&& split.icon@ == Seq::<char>::empty()
    &&& split.time.real_time@ == missing_time()
    &&& split.time.game_time@ == missing_time()
    &&& split.best_time.real_time@ == missing_time()
    &&& split.best_time.game_time@ == missing_time()
    &&& split.best_segment.real_time@ == missing_time()
    &&& split.best_segment.game_time@ == missing_time()
}

/// The LibreSplit file that a LiveSplit document converts to.
pub open spec fn converted_from(f: LibreSplitFile, doc: XmlElement) -> bool {
    &&& f.name@ == header_text(doc, "GameName"@, "Unknown Game"@)
    &&& f.category@ == header_text(doc, "CategoryName"@, "Unknown Category"@)
    &&& f.icon@ == icon_or_empty(header_text(doc, "GameIcon"@, Seq::<char>::empty()))
    &&& f.attempt_count == spec_attempt_count(doc)
    &&& f.finished_count == spec_finished_count(doc)
    &&& f.width == 60
    &&& f.height == 80
    &&& match child(doc, "Segments"@) {
        Some(list) => {
            let segs = children_named(list, "Segment"@);
            let bests = segments_fold(segs).1;
            &&& f.splits@.len() == segs.len()
            &&& forall|i: int|
                0 <= i < segs.len() ==> split_from_element(#[trigger] f.splits@[i], segs[i], bests[i])
        },
        None => f.splits@.len() == 1 && is_placeholder_split(f.splits@[0]),
    }
}

/// Converts the text of a LiveSplit file into a LibreSplit file.
pub fn convert_document(file: &str) -> (res: Result<LibreSplitFile, ConversionError>)
    ensures
        match spex_document(file@, reader_attribute_names()) {
            Err(message) => match res {
                Err(ConversionError::InvalidXml(m)) => m@ == message,
                _ => false,
            },
            Ok(doc) => if livesplit_readable(doc) {
                match res {
                    Ok(f) => converted_from(f, doc),
                    Err(_) => false,
                }
            } else {
                res matches Err(ConversionError::Unreadable)
            },
        },
{
    let names: Vec<String> = vec!["name".to_owned(), "id".to_owned()];
    assert(names@.map_values(|n: String| n@) == reader_attribute_names());
    let doc = match parse_xml_document(file, &names) {
        Ok(d) => d,
        Err(message) => return Err(ConversionError::InvalidXml(message)),
    };
    if !LiveSplitFile::is_readable(&doc) {
        return Err(ConversionError::Unreadable);
    }
    let lss = LiveSplitFile::new(&doc);
    let ghost segments = lss.segments@;
    let f = LibreSplitFile::from_livesplit(lss);
    proof {
        match child(doc, "Segments"@) {
            Some(list) => {
                let segs = children_named(list, "Segment"@);
                assert forall|i: int| 0 <= i < segs.len() implies split_from_element(
                    #[trigger] f.splits@[i],
                    segs[i],
                    segments_fold(segs).1[i],
                ) by {
                    assert(crate::libresplit::split_from(f.splits@[i], segments[i]));
                }
            },
            None => {
                assert(crate::libresplit::split_from(f.splits@[0], segments[0]));
            },
        }
    }
    Ok(f)
}

} // verus!
