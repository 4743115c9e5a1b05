use token_ledger::content::{
    ChannelOwner, ChannelRecord, CleanupActor, NumericIdentifier, VideoPostTypeRecord, VideoRecord,
};
use token_ledger::errors::ContentError;

type Channel = ChannelRecord<u64, u64, u64, u64>;
type Video = VideoRecord<u64, u64, u64>;

#[test]
fn channel_censorship_status_must_change() {
    let channel = Channel::default();
    assert_eq!(channel.ensure_censorship_status_changed(true), Ok(()));
    assert_eq!(
        channel.ensure_censorship_status_changed(false),
        Err(ContentError::ChannelCensorshipStatusDidNotChange)
    );
}

#[test]
fn video_censorship_status_must_change() {
    let mut video = Video::default();
    video.is_censored = true;
    assert_eq!(video.ensure_censorship_status_changed(false), Ok(()));
    assert_eq!(
        video.ensure_censorship_status_changed(true),
        Err(ContentError::VideoCensorshipStatusDidNotChange)
    );
}

#[test]
fn nft_issuance_guards() {
    let mut video = Video::default();
    assert_eq!(video.ensure_nft_is_not_issued(), Ok(()));
    assert_eq!(video.ensure_nft_is_issued(), Err(ContentError::NftDoesNotExist));
    video.set_nft_status(5);
    assert_eq!(video.ensure_nft_is_not_issued(), Err(ContentError::NftAlreadyExists));
    assert_eq!(video.ensure_nft_is_issued(), Ok(5));
}

#[test]
fn set_nft_status_touches_only_the_nft() {
    let mut video = Video::default();
    video.in_channel = 9;
    video.enable_comments = true;
    video.set_nft_status(77);
    assert_eq!(video.nft_status, Some(77));
    assert_eq!(video.in_channel, 9);
    assert!(video.enable_comments);
}

#[test]
fn canonical_default_variants() {
    let owner: ChannelOwner<u64, u64> = ChannelOwner::default();
    assert_eq!(owner, ChannelOwner::Member(0));
    let post_type: VideoPostTypeRecord<u64> = VideoPostTypeRecord::default();
    assert_eq!(post_type, VideoPostTypeRecord::Description);
    assert_eq!(CleanupActor::default(), CleanupActor::ChannelOwner);
}

#[test]
fn numeric_identifier_round_trips() {
    let id = <u64 as NumericIdentifier>::from_u64(42);
    assert_eq!(id.into_u64(), 42);
}
