use vstd::prelude::*;

use std::sync::Arc;
use std::time::Duration;

verus! {

/// Credentials for interactive authentication.
#[derive(Clone)]
pub enum AuthData {
    /// Password-based authentication.
    Password { password_details: AuthDataPasswordDetails },
}

#[derive(Clone)]
pub struct AuthDataPasswordDetails {
    /// One of the user's identifiers.
    pub identifier: String,
    /// The plaintext password.
    pub password: String,
}

/// A room, room alias, user or event, with the servers to reach it through.
#[derive(Clone)]
pub struct MatrixEntity {
    pub id: MatrixId,
    pub via: Vec<String>,
}

/// The identifier of a room, room alias, user or event.
#[derive(Clone)]
pub enum MatrixId {
    Room { id: String },
    RoomAlias { alias: String },
    User { id: String },
    EventOnRoomId { room_id: String, event_id: String },
    EventOnRoomAlias { alias: String, event_id: String },
}

/// Where a piece of media lives: a content URI, of a plain or of an
/// encrypted file.
#[derive(Clone)]
pub struct MediaSource {
    url: String,
    encrypted: bool,
}

impl MediaSource {
    pub fn plain(url: String) -> (r: Self)
        ensures
            r.url_view() == url@,
            !r.is_encrypted_view(),
    {
        MediaSource { url, encrypted: false }
    }

    pub fn encrypted(url: String) -> (r: Self)
        ensures
            r.url_view() == url@,
            r.is_encrypted_view(),
    {
        MediaSource { url, encrypted: true }
    }

    pub closed spec fn url_view(&self) -> Seq<char> {
        self.url@
    }

    pub closed spec fn is_encrypted_view(&self) -> bool {
        self.encrypted
    }

    /// The content URI of the media, encrypted or not.
    pub fn url(&self) -> (r: String)
        ensures
            r@ == self.url_view(),
    {
        self.url.clone()
    }

    pub fn is_encrypted(&self) -> (r: bool)
        ensures
            r == self.is_encrypted_view(),
    {
        self.encrypted
    }
}

/// Whom a message mentions.
#[derive(Clone)]
pub struct Mentions {
    pub user_ids: Vec<String>,
    pub room: bool,
}

pub enum MessageType {
    Emote { content: EmoteMessageContent },
    Image { content: ImageMessageContent },
    Audio { content: AudioMessageContent },
    Video { content: VideoMessageContent },
    File { content: FileMessageContent },
    Notice { content: NoticeMessageContent },
    Text { content: TextMessageContent },
    Location { content: LocationContent },
    Other { msgtype: String, body: String },
}

/// The body and file name of a media message. With a caption, the body is
/// the caption and the file name stands on its own; without one, the body is
/// the file name.
pub fn get_body_and_filename(filename: String, caption: Option<String>) -> (r: (String, Option<String>))
    ensures
        match caption {
            Some(c) => r.0 == c && r.1 == Some(filename),
            None => r.0 == filename && r.1 is None,
        },
{
    match caption {
        Some(caption) => (caption, Some(filename)),
        None => (filename, None),
    }
}

#[derive(Clone)]
pub enum NotifyType {
    Ring,
    Notify,
}

#[derive(Clone)]
pub struct EmoteMessageContent {
    pub body: String,
    pub formatted: Option<FormattedBody>,
}

#[derive(Clone)]
pub struct ImageMessageContent {
    pub filename: String,
    pub caption: Option<String>,
    pub formatted_caption: Option<FormattedBody>,
    pub source: Arc<MediaSource>,
    pub info: Option<ImageInfo>,
}

pub struct AudioMessageContent {
    pub filename: String,
    pub caption: Option<String>,
    pub formatted_caption: Option<FormattedBody>,
    pub source: Arc<MediaSource>,
    pub info: Option<AudioInfo>,
    pub audio: Option<UnstableAudioDetailsContent>,
    pub voice: Option<UnstableVoiceContent>,
}

pub struct VideoMessageContent {
    pub filename: String,
    pub caption: Option<String>,
    pub formatted_caption: Option<FormattedBody>,
    pub source: Arc<MediaSource>,
    pub info: Option<VideoInfo>,
}

#[derive(Clone)]
pub struct FileMessageContent {
    pub filename: String,
    pub caption: Option<String>,
    pub formatted_caption: Option<FormattedBody>,
    pub source: Arc<MediaSource>,
    pub info: Option<FileInfo>,
}

#[derive(Clone)]
pub struct ImageInfo {
    pub height: Option<u64>,
    pub width: Option<u64>,
    pub mimetype: Option<String>,
    pub size: Option<u64>,
    pub thumbnail_info: Option<ThumbnailInfo>,
    pub thumbnail_source: Option<Arc<MediaSource>>,
    pub blurhash: Option<String>,
    pub is_animated: Option<bool>,
}

pub struct AudioInfo {
    pub duration: Option<Duration>,
    pub size: Option<u64>,
    pub mimetype: Option<String>,
}

pub struct UnstableAudioDetailsContent {
    pub duration: Duration,
    pub waveform: Vec<u16>,
}

#[derive(Clone)]
pub struct UnstableVoiceContent {}

pub struct VideoInfo {
    pub duration: Option<Duration>,
    pub height: Option<u64>,
    pub width: Option<u64>,
    pub mimetype: Option<String>,
    pub size: Option<u64>,
    pub thumbnail_info: Option<ThumbnailInfo>,
    pub thumbnail_source: Option<Arc<MediaSource>>,
    pub blurhash: Option<String>,
}

#[derive(Clone)]
pub struct FileInfo {
    pub mimetype: Option<String>,
    pub size: Option<u64>,
    pub thumbnail_info: Option<ThumbnailInfo>,
    pub thumbnail_source: Option<Arc<MediaSource>>,
}

#[derive(Clone)]
pub struct ThumbnailInfo {
    pub height: Option<u64>,
    pub width: Option<u64>,
    pub mimetype: Option<String>,
    pub size: Option<u64>,
}

#[derive(Clone)]
pub struct NoticeMessageContent {
    pub body: String,
    pub formatted: Option<FormattedBody>,
}

#[derive(Clone)]
pub struct TextMessageContent {
    pub body: String,
    pub formatted: Option<FormattedBody>,
}

#[derive(Clone)]
pub struct LocationContent {
    pub body: String,
    pub geo_uri: String,
    pub description: Option<String>,
    pub zoom_level: Option<u8>,
    pub asset: Option<AssetType>,
}

#[derive(Clone)]
pub enum AssetType {
    Sender,
    Pin,
}

#[derive(Clone)]
pub struct FormattedBody {
    pub format: MessageFormat,
    pub body: String,
}

#[derive(Clone)]
pub enum MessageFormat {
    Html,
    Unknown { format: String },
}

#[derive(Clone)]
pub enum PollKind {
    Disclosed,
    Undisclosed,
}

/// The largest integer that the protocol's JSON integers hold: `2^53 - 1`.
pub const MAX_SAFE_UINT: u64 = 9007199254740991;

/// Why media details cannot go with an upload.
#[derive(Clone, Copy, Debug, PartialEq, Eq, Structural)]
pub enum MediaInfoError {
    MissingField,
    InvalidField,
}

/// An integer field that must be present and fit the protocol's integers.
pub open spec fn checked_uint(o: Option<u64>) -> Result<u64, MediaInfoError> {
    match o {
        None => Err(MediaInfoError::MissingField),
        Some(v) => if v <= MAX_SAFE_UINT {
            Ok(v)
        } else {
            Err(MediaInfoError::InvalidField)
        },
    }
}

fn check_uint(o: Option<u64>) -> (r: Result<u64, MediaInfoError>)
    ensures
        r == checked_uint(o),
{
    match o {
        None => Err(MediaInfoError::MissingField),
        Some(v) => if v <= MAX_SAFE_UINT {
            Ok(v)
        } else {
            Err(MediaInfoError::InvalidField)
        },
    }
}

fn clone_opt_string(o: &Option<String>) -> (r: Option<String>)
    ensures
        r == *o,
{
    match o {
        Some(s) => Some(s.clone()),
        None => None,
    }
}

/// The details of an image to upload.
pub struct BaseImageInfo {
    pub height: Option<u64>,
    pub width: Option<u64>,
    pub size: Option<u64>,
    pub blurhash: Option<String>,
    pub is_animated: Option<bool>,
}

/// The details of an audio file to upload.
pub struct BaseAudioInfo {
    pub duration: Option<Duration>,
    pub size: Option<u64>,
}

/// The details of a video to upload.
pub struct BaseVideoInfo {
    pub duration: Option<Duration>,
    pub height: Option<u64>,
    pub width: Option<u64>,
    pub size: Option<u64>,
    pub blurhash: Option<String>,
}

/// The details of a file to upload.
pub struct BaseFileInfo {
    pub size: Option<u64>,
}

impl BaseImageInfo {
    /// Height, width, size and blurhash must all be there, in that order of
    /// checking, and the integers must fit.
    pub fn try_from_info(value: &ImageInfo) -> (r: Result<BaseImageInfo, MediaInfoError>)
        ensures
            match (checked_uint(value.height), checked_uint(value.width), checked_uint(value.size)) {
                (Err(e), _, _) => r == Err::<BaseImageInfo, MediaInfoError>(e),
                (Ok(_), Err(e), _) => r == Err::<BaseImageInfo, MediaInfoError>(e),
                (Ok(_), Ok(_), Err(e)) => r == Err::<BaseImageInfo, MediaInfoError>(e),
                (Ok(h), Ok(w), Ok(s)) => match value.blurhash {
                    None => r == Err::<BaseImageInfo, MediaInfoError>(MediaInfoError::MissingField),
                    Some(b) => r == Ok::<BaseImageInfo, MediaInfoError>(
                        BaseImageInfo {
                            height: Some(h),
                            width: Some(w),
                            size: Some(s),
                            blurhash: Some(b),
                            is_animated: value.is_animated,
                        },
                    ),
                },
            },
    {
        let height = match check_uint(value.height) {
            Ok(v) => v,
            Err(e) => return Err(e),
        };
        let width = match check_uint(value.width) {
            Ok(v) => v,
            Err(e) => return Err(e),
        };
        let size = match check_uint(value.size) {
            Ok(v) => v,
            Err(e) => return Err(e),
        };
        let blurhash = match clone_opt_string(&value.blurhash) {
            Some(b) => b,
            None => return Err(MediaInfoError::MissingField),
        };
        Ok(
            BaseImageInfo {
                height: Some(height),
                width: Some(width),
                size: Some(size),
                blurhash: Some(blurhash),
                is_animated: value.is_animated,
            },
        )
    }
}

impl BaseAudioInfo {
    /// Duration and size must be there, in that order of checking, and the
    /// size must fit.
    pub fn try_from_info(value: &AudioInfo) -> (r: Result<BaseAudioInfo, MediaInfoError>)
        ensures
            match value.duration {
                None => r == Err::<BaseAudioInfo, MediaInfoError>(MediaInfoError::MissingField),
                Some(d) => match checked_uint(value.size) {
                    Err(e) => r == Err::<BaseAudioInfo, MediaInfoError>(e),
                    Ok(s) => r == Ok::<BaseAudioInfo, MediaInfoError>(BaseAudioInfo { duration: Some(d), size: Some(s) }),
                },
            },
    {
        let duration = match value.duration {
            Some(d) => d,
            None => return Err(MediaInfoError::MissingField),
        };
        let size = match check_uint(value.size) {
            Ok(v) => v,
            Err(e) => return Err(e),
        };
        Ok(BaseAudioInfo { duration: Some(duration), size: Some(size) })
    }
}

impl BaseVideoInfo {
    /// Duration, height, width, size and blurhash must all be there, in that
    /// order of checking, and the integers must fit.
    pub fn try_from_info(value: &VideoInfo) -> (r: Result<BaseVideoInfo, MediaInfoError>)
        ensures
            match value.duration {
                None => r == Err::<BaseVideoInfo, MediaInfoError>(MediaInfoError::MissingField),
                Some(d) => match (checked_uint(value.height), checked_uint(value.width), checked_uint(value.size)) {
                    (Err(e), _, _) => r == Err::<BaseVideoInfo, MediaInfoError>(e),
                    (Ok(_), Err(e), _) => r == Err::<BaseVideoInfo, MediaInfoError>(e),
                    (Ok(_), Ok(_), Err(e)) => r == Err::<BaseVideoInfo, MediaInfoError>(e),
                    (Ok(h), Ok(w), Ok(s)) => match value.blurhash {
                        None => r == Err::<BaseVideoInfo, MediaInfoError>(MediaInfoError::MissingField),
                        Some(b) => r == Ok::<BaseVideoInfo, MediaInfoError>(
                            BaseVideoInfo {
                                duration: Some(d),
                                height: Some(h),
                                width: Some(w),
                                size: Some(s),
                                blurhash: Some(b),
                            },
                        ),
                    },
                },
            },
    {
        let duration = match value.duration {
            Some(d) => d,
            None => return Err(MediaInfoError::MissingField),
        };
        let height = match check_uint(value.height) {
            Ok(v) => v,
            Err(e) => return Err(e),
        };
        let width = match check_uint(value.width) {
            Ok(v) => v,
            Err(e) => return Err(e),
        };
        let size = match check_uint(value.size) {
            Ok(v) => v,
            Err(e) => return Err(e),
        };
        let blurhash = match clone_opt_string(&value.blurhash) {
            Some(b) => b,
            None => return Err(MediaInfoError::MissingField),
        };
        Ok(
            BaseVideoInfo {
                duration: Some(duration),
                height: Some(height),
                width: Some(width),
                size: Some(size),
                blurhash: Some(blurhash),
            },
        )
    }
}

impl BaseFileInfo {
    /// The size must be there and fit.
    pub fn try_from_info(value: &FileInfo) -> (r: Result<BaseFileInfo, MediaInfoError>)
        ensures
            match checked_uint(value.size) {
                Err(e) => r == Err::<BaseFileInfo, MediaInfoError>(e),
                Ok(s) => r == Ok::<BaseFileInfo, MediaInfoError>(BaseFileInfo { size: Some(s) }),
            },
    {
        match check_uint(value.size) {
            Ok(v) => Ok(BaseFileInfo { size: Some(v) }),
            Err(e) => Err(e),
        }
    }
}

} // verus!
