//! Content records: channels, videos, categories, posts, and their
//! parameter bundles, together with the small guard operations the host
//! dispatch layer runs before mutating them.

use vstd::prelude::*;

use std::collections::BTreeSet;

use crate::errors::ContentError;

verus! {

/// A multiple-URL asset reference.
pub type Url = Vec<u8>;

/// How a new asset is provided when creating or updating content.
#[derive(Clone, PartialEq, Eq, Debug)]
pub enum NewAsset<ContentParameters> {
    /// Upload through the storage layer.
    Upload(ContentParameters),
    /// Multiple URL strings pointing at an asset.
    Urls(Vec<Url>),
}

/// Bookkeeping for a sweep over a half-open identifier range
/// `[current_id, final_id)`: the upper bound moves when a migration is
/// triggered, the lower one as it is performed.
#[derive(Default, Clone, PartialEq, Eq, Debug)]
pub struct MigrationConfigRecord<NumericId> {
    /// The next identifier the migration will visit.
    pub current_id: NumericId,
    /// The identifier the migration stops before.
    pub final_id: NumericId,
}

/// The authorized owner of a channel.
#[derive(Clone, PartialEq, Eq, Debug)]
pub enum ChannelOwner<MemberId, CuratorGroupId> {
    /// A member owns the channel.
    Member(MemberId),
    /// A curation group owns the channel.
    CuratorGroup(CuratorGroupId),
}

impl<MemberId: Default, CuratorGroupId> Default for ChannelOwner<MemberId, CuratorGroupId> {
    /// The canonical default owner is a member.
    fn default() -> (r: Self)
        ensures
            r is Member,
    {
        ChannelOwner::Member(MemberId::default())
    }
}

/// A category channels can belong to; no further state is kept for it.
#[derive(Default, Clone, PartialEq, Eq, Debug)]
pub struct ChannelCategory {}

/// Information on a channel category being created.
#[derive(Default, Clone, PartialEq, Eq, Debug)]
pub struct ChannelCategoryCreationParameters {
    /// Metadata for the category.
    pub meta: Vec<u8>,
}

/// Information on a channel category being updated.
#[derive(Default, Clone, PartialEq, Eq, Debug)]
pub struct ChannelCategoryUpdateParameters {
    /// The metadata update; not optional, being the only field.
    pub new_meta: Vec<u8>,
}

/// An owned channel that videos belong to.
#[derive(Default, Clone, PartialEq, Eq, Debug)]
pub struct ChannelRecord<MemberId: Ord, CuratorGroupId, AccountId, Balance> {
    /// The owner of the channel.
    pub owner: ChannelOwner<MemberId, CuratorGroupId>,
    /// The number of videos under the channel.
    pub num_videos: u64,
    /// Whether curators have censored the channel.
    pub is_censored: bool,
    /// Where revenue is sent, if set.
    pub reward_account: Option<AccountId>,
    /// The collaborator set.
    pub collaborators: BTreeSet<MemberId>,
    /// The moderator set.
    pub moderators: BTreeSet<MemberId>,
    /// The cumulative cashout earned by the channel.
    pub cumulative_payout_earned: Balance,
}

impl<MemberId: Ord, CuratorGroupId, AccountId, Balance> ChannelRecord<
    MemberId,
    CuratorGroupId,
    AccountId,
    Balance,
> {
    /// Guards a censorship update: the status must actually change.
    pub fn ensure_censorship_status_changed(&self, is_censored: bool) -> (r: Result<
        (),
        ContentError,
    >)
        ensures
            r is Ok <==> self.is_censored != is_censored,
            r is Err ==> r == Err::<(), ContentError>(
                ContentError::ChannelCensorshipStatusDidNotChange,
            ),
    {
        if self.is_censored != is_censored {
            Ok(())
        } else {
            Err(ContentError::ChannelCensorshipStatusDidNotChange)
        }
    }
}

/// A request to buy a channel by a new owner.
#[derive(Default, Clone, PartialEq, Eq, Debug)]
pub struct ChannelOwnershipTransferRequestRecord<
    ChannelId,
    MemberId,
    CuratorGroupId,
    Balance,
    AccountId,
> {
    pub channel_id: ChannelId,
    pub new_owner: ChannelOwner<MemberId, CuratorGroupId>,
    pub payment: Balance,
    pub new_reward_account: Option<AccountId>,
}

/// A category videos can belong to; no further state is kept for it.
#[derive(Default, Clone, PartialEq, Eq, Debug)]
pub struct VideoCategory {}

/// Information on a video category being created.
#[derive(Default, Clone, PartialEq, Eq, Debug)]
pub struct VideoCategoryCreationParameters {
    /// Metadata about the video category.
    pub meta: Vec<u8>,
}

/// Information on a video category being updated.
#[derive(Default, Clone, PartialEq, Eq, Debug)]
pub struct VideoCategoryUpdateParameters {
    /// The metadata update; not optional, being the only field.
    pub new_meta: Vec<u8>,
}

/// A data object the storage layer is asked to create.
#[derive(Default, Clone, PartialEq, Eq, Debug)]
pub struct DataObjectCreationParameters {
    /// The object's size in bytes.
    pub size: u64,
    /// The content identifier the object is addressed by.
    pub ipfs_content_id: Vec<u8>,
}

/// Information about content being uploaded.
#[derive(Clone, PartialEq, Eq, Debug)]
pub struct StorageAssetsRecord<Balance> {
    /// The data objects to create.
    pub object_creation_list: Vec<DataObjectCreationParameters>,
    /// The expected data size fee for this call.
    pub expected_data_size_fee: Balance,
}

/// A video belonging to a channel.
#[derive(Default, Clone, PartialEq, Eq, Debug)]
pub struct VideoRecord<ChannelId, VideoPostId, OwnedNft> {
    /// The channel the video is in.
    pub in_channel: ChannelId,
    /// Whether curators have censored the video.
    pub is_censored: bool,
    /// Whether comments are enabled.
    pub enable_comments: bool,
    /// The first post to the video, which works as a description.
    pub video_post_id: Option<VideoPostId>,
    /// The NFT issued for this video, if any.
    pub nft_status: Option<OwnedNft>,
}

impl<ChannelId: Clone, VideoPostId: Clone, OwnedNft: Clone> VideoRecord<
    ChannelId,
    VideoPostId,
    OwnedNft,
> {
    /// Guards NFT issuance: none may have been issued yet.
    pub fn ensure_nft_is_not_issued(&self) -> (r: Result<(), ContentError>)
        ensures
            r is Ok <==> self.nft_status is None,
            r is Err ==> r == Err::<(), ContentError>(ContentError::NftAlreadyExists),
    {
        if self.nft_status.is_none() {
            Ok(())
        } else {
            Err(ContentError::NftAlreadyExists)
        }
    }

    /// Guards NFT operations: an NFT must have been issued.
    pub fn ensure_nft_is_issued(&self) -> (r: Result<OwnedNft, ContentError>)
        ensures
            r is Ok <==> self.nft_status is Some,
            r is Err ==> r == Err::<OwnedNft, ContentError>(ContentError::NftDoesNotExist),
    {
        match &self.nft_status {
            Some(owned_nft) => Ok(owned_nft.clone()),
            None => Err(ContentError::NftDoesNotExist),
        }
    }

    /// Records the video's NFT status.
    pub fn set_nft_status(&mut self, nft: OwnedNft)
        ensures
            *final(self) == (VideoRecord { nft_status: Some(nft), ..*old(self) }),
    {
        self.nft_status = Some(nft);
    }

    /// Guards a censorship update: the status must actually change.
    pub fn ensure_censorship_status_changed(&self, is_censored: bool) -> (r: Result<
        (),
        ContentError,
    >)
        ensures
            r is Ok <==> self.is_censored != is_censored,
            r is Err ==> r == Err::<(), ContentError>(
                ContentError::VideoCensorshipStatusDidNotChange,
            ),
    {
        if self.is_censored != is_censored {
            Ok(())
        } else {
            Err(ContentError::VideoCensorshipStatusDidNotChange)
        }
    }
}

/// A post associated to a video.
#[derive(Default, Clone, PartialEq, Eq, Debug)]
pub struct VideoPostRecord<ContentActor, Balance, VideoPostId, VideoPostType, VideoId> {
    /// The author of the post.
    pub author: ContentActor,
    /// The cleanup pay-off bonded for the post.
    pub bloat_bond: Balance,
    /// The overall replies counter.
    pub replies_count: VideoPostId,
    /// Whether the post is a description or a comment.
    pub post_type: VideoPostType,
    /// The video the post belongs to.
    pub video_reference: VideoId,
}

/// A video post's place in the reply chain: the first post works as the
/// video's description, every other one is a comment referencing its
/// parent post by identifier.
#[derive(Clone, PartialEq, Eq, Debug)]
pub enum VideoPostTypeRecord<ParentVideoPostId> {
    /// Equivalent to a video description.
    Description,
    /// A comment to the post with the given identifier.
    Comment(ParentVideoPostId),
}

impl<ParentVideoPostId> Default for VideoPostTypeRecord<ParentVideoPostId> {
    /// The canonical default post type is a description.
    fn default() -> (r: Self)
        ensures
            r is Description,
    {
        VideoPostTypeRecord::Description
    }
}

/// Who is cleaning up a post: its author, a moderator, or the channel owner.
#[derive(Clone, PartialEq, Eq, Structural, Debug)]
pub enum CleanupActor {
    ChannelOwner,
    Moderator,
    VideoPostAuthor,
}

impl Default for CleanupActor {
    /// The canonical default cleanup actor.
    fn default() -> (r: Self)
        ensures
            r == CleanupActor::ChannelOwner,
    {
        CleanupActor::ChannelOwner
    }
}

/// Information on a post being created.
#[derive(Default, Clone, PartialEq, Eq, Debug)]
pub struct VideoPostCreationParametersRecord<VideoPostType, VideoId> {
    /// Whether the post is a description or a comment.
    pub post_type: VideoPostType,
    /// The video the post refers to.
    pub video_reference: VideoId,
}

/// Information on a post being deleted.
#[derive(Default, Clone, PartialEq, Eq, Debug)]
pub struct VideoPostDeletionParametersRecord<HashOutput> {
    /// Optional witness in case of a video post deletion.
    pub witness: Option<HashOutput>,
    /// Rationale in case the actor is a moderator.
    pub rationale: Option<Vec<u8>>,
}

/// A numeric identifier: copyable, ordered, and convertible to and from a
/// machine word.
pub trait NumericIdentifier: Copy + Eq + Ord + Sized {
    /// Builds the identifier carrying `value`.
    fn from_u64(value: u64) -> Self;

    /// The machine word the identifier carries.
    fn into_u64(self) -> u64;
}

impl NumericIdentifier for u64 {
    fn from_u64(value: u64) -> Self {
        value
    }

    fn into_u64(self) -> u64 {
        self
    }
}

} // verus!
