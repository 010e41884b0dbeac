//! The per-room event cache of a chat client.
//!
//! - `linked_chunk`: a segmented container of events and gaps, addressed by
//!   stable positions, with a live stream of vector diffs over its events.
//! - `room_events`: the room-level operations on it: ingest, gaps, removal
//!   by identifier with position tracking, and redactions.
//! - `model`: the mathematical view of a container and of each operation;
//!   `preservation` proves that every operation keeps its invariant, and
//!   `laws` states and proves what holds across operations.
//! - `content`, `recovery`: the message-content records of the client's
//!   bindings, and the decisions of its recovery screen.

mod content;
mod event;
mod json;
pub mod laws;
mod linked_chunk;
pub mod model;
pub mod preservation;
mod recovery;
mod room_events;
mod text;

pub use content::{
    get_body_and_filename, AssetType, AudioInfo, AudioMessageContent, AuthData, AuthDataPasswordDetails, BaseAudioInfo,
    BaseFileInfo, BaseImageInfo, BaseVideoInfo, EmoteMessageContent, FileInfo, FileMessageContent, FormattedBody,
    ImageInfo, ImageMessageContent, LocationContent, MatrixEntity, MatrixId, MediaInfoError, MediaSource, Mentions,
    MessageFormat, MessageType, NoticeMessageContent, NotifyType, PollKind, TextMessageContent, ThumbnailInfo,
    UnstableAudioDetailsContent, UnstableVoiceContent, VideoInfo, VideoMessageContent, MAX_SAFE_UINT,
};
pub use event::{ChunkIdentifier, EmptyChunk, Event, Gap, LinkedChunkError, Position};
pub use linked_chunk::{Chunk, ChunkContent, LinkedChunk, VectorDiff};
pub use recovery::{KeyPress, RecoveryMode, RecoveryState, RecoveryViewState, ShouldExit};
pub use room_events::{is_redacted_event, redaction_target_of, RoomEvents, DEFAULT_CHUNK_CAPACITY};
