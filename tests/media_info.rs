use std::time::Duration;

use room_events::{
    AudioInfo, BaseAudioInfo, BaseFileInfo, BaseImageInfo, BaseVideoInfo, FileInfo, ImageInfo, MediaInfoError,
    VideoInfo, MAX_SAFE_UINT,
};

fn image(height: Option<u64>, blurhash: Option<&str>) -> ImageInfo {
    ImageInfo {
        height,
        width: Some(20),
        mimetype: Some("image/png".to_owned()),
        size: Some(300),
        thumbnail_info: None,
        thumbnail_source: None,
        blurhash: blurhash.map(str::to_owned),
        is_animated: Some(false),
    }
}

#[test]
fn image_info_complete() {
    let base = BaseImageInfo::try_from_info(&image(Some(10), Some("LKO2"))).unwrap();
    assert_eq!(base.height, Some(10));
    assert_eq!(base.width, Some(20));
    assert_eq!(base.size, Some(300));
    assert_eq!(base.blurhash.as_deref(), Some("LKO2"));
    assert_eq!(base.is_animated, Some(false));
}

#[test]
fn image_info_missing_and_invalid() {
    assert_eq!(BaseImageInfo::try_from_info(&image(None, Some("x"))).err(), Some(MediaInfoError::MissingField));
    assert_eq!(
        BaseImageInfo::try_from_info(&image(Some(MAX_SAFE_UINT + 1), Some("x"))).err(),
        Some(MediaInfoError::InvalidField)
    );
    assert!(BaseImageInfo::try_from_info(&image(Some(MAX_SAFE_UINT), Some("x"))).is_ok());
    assert_eq!(BaseImageInfo::try_from_info(&image(Some(1), None)).err(), Some(MediaInfoError::MissingField));
}

#[test]
fn audio_video_file_info() {
    let audio = AudioInfo { duration: Some(Duration::from_secs(3)), size: Some(5), mimetype: None };
    let base = BaseAudioInfo::try_from_info(&audio).unwrap();
    assert_eq!(base.duration, Some(Duration::from_secs(3)));
    assert_eq!(base.size, Some(5));
    let no_duration = AudioInfo { duration: None, size: Some(5), mimetype: None };
    assert_eq!(BaseAudioInfo::try_from_info(&no_duration).err(), Some(MediaInfoError::MissingField));

    let video = VideoInfo {
        duration: Some(Duration::from_secs(1)),
        height: Some(1),
        width: Some(u64::MAX),
        mimetype: None,
        size: Some(1),
        thumbnail_info: None,
        thumbnail_source: None,
        blurhash: Some("b".to_owned()),
    };
    assert_eq!(BaseVideoInfo::try_from_info(&video).err(), Some(MediaInfoError::InvalidField));

    let file = FileInfo { mimetype: None, size: Some(7), thumbnail_info: None, thumbnail_source: None };
    assert_eq!(BaseFileInfo::try_from_info(&file).unwrap().size, Some(7));
    let empty = FileInfo { mimetype: None, size: None, thumbnail_info: None, thumbnail_source: None };
    assert_eq!(BaseFileInfo::try_from_info(&empty).err(), Some(MediaInfoError::MissingField));
}
