//! The rules a smart-rendering cutter works by: which pictures are copied and
//! which are made again, what a recording's own tables say and how they are
//! put back, and what the files beside a recording hold.
pub mod bytes;
pub mod cache;
pub mod caption;
pub mod chars;
pub mod decimal;
pub mod le;
pub mod logo;
pub mod naming;
pub mod netpath;
pub mod nice;
pub mod pgs;
pub mod plan;
pub mod playback_audio;
pub mod preview;
pub mod proxy;
pub mod rank;
pub mod recording;
pub mod restamp;
pub mod seek_index;
pub mod series;
pub mod si;
pub mod sound;
pub mod subs;
pub mod text;
pub mod thumbs;
pub mod time;
pub mod transition;
pub mod ttml;

pub use plan::{plan, plan_on, plan_range, PlanOptions, RangePlan, Segment, SegmentKind};
pub use recording::index::{assemble, Index, NoEntryPoints, Source};
pub use recording::outline::{one_track_per_pid, outline_of, Outline, OutlineError};
pub use recording::{
    libav, text_stream, track_name, AccessPoint, AudioInfo, CaptionInfo, DroppedStream,
    EntryPictures, GraphicsInfo, Libav, Ratio, Seam, SoundTrack, Step, SubpictureInfo, TextFormat,
    TextKind, Told, VideoInfo,
};
