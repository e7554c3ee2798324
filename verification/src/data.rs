//! The in-memory catalog: videos grouped into named channels, with the query
//! operations (search, list, look up) and the one mutation (removing a video
//! once it is watched).
//!
//! Every operation is specified against the mathematical view of the catalog:
//! a sequence of channels, each a name and a sequence of (title, location)
//! pairs.

use vstd::multiset::Multiset;
use vstd::prelude::*;

use crate::text::contains_sub;
use crate::text::has_substring;
use crate::text::lex_le;
use crate::text::lower_of;
use crate::text::str_eq;
use crate::text::str_le;
use crate::text::to_lower;

verus! {

/// Mathematical content of a [`Video`]: its title and the location of the
/// backing file, both as character sequences.
pub struct VideoView {
    pub title: Seq<char>,
    pub location: Seq<char>,
}

/// A single video: a human-readable title parsed from the filename, and the
/// full path of the backing file.  Presentation order is governed by
/// `location` alone.
pub struct Video {
    pub title: String,
    pub location: String,
}

impl View for Video {
    type V = VideoView;

    open spec fn view(&self) -> VideoView {
        VideoView { title: self.title@, location: self.location@ }
    }
}

/// Mathematical content of a [`Channel`].
pub struct ChannelView {
    pub name: Seq<char>,
    pub videos: Seq<VideoView>,
}

/// A named grouping of videos that share a filename prefix.
pub struct Channel {
    pub name: String,
    pub videos: Vec<Video>,
}

impl View for Channel {
    type V = ChannelView;

    open spec fn view(&self) -> ChannelView {
        ChannelView { name: self.name@, videos: self.videos@.map_values(|v: Video| v@) }
    }
}

/// The catalog: every channel found by the most recent scan.  Channel names
/// are unique; the order of the channels themselves carries no meaning, since
/// every query sorts its own output.
pub struct Data {
    pub channels: Vec<Channel>,
}

impl View for Data {
    type V = Seq<ChannelView>;

    open spec fn view(&self) -> Seq<ChannelView> {
        self.channels@.map_values(|c: Channel| c@)
    }
}

/// Channel names are pairwise distinct.
pub open spec fn unique_names(d: Seq<ChannelView>) -> bool {
    forall|i: int, j: int| 0 <= i < j < d.len() ==> (#[trigger] d[i]).name != (#[trigger] d[j]).name
}

/// The videos are ordered by location, ascending.
pub open spec fn sorted_by_location(vs: Seq<VideoView>) -> bool {
    forall|i: int| 0 <= i && i + 1 < vs.len() ==> lex_le((#[trigger] vs[i]).location, vs[i + 1].location)
}

/// The first channel with the given name, if any.
pub open spec fn find_channel(d: Seq<ChannelView>, name: Seq<char>) -> Option<ChannelView>
    decreases d.len(),
{
    if d.len() == 0 {
        None
    } else if d[0].name == name {
        Some(d[0])
    } else {
        find_channel(d.drop_first(), name)
    }
}

/// The first video with the given exact title, if any.
pub open spec fn find_video(vs: Seq<VideoView>, title: Seq<char>) -> Option<VideoView>
    decreases vs.len(),
{
    if vs.len() == 0 {
        None
    } else if vs[0].title == title {
        Some(vs[0])
    } else {
        find_video(vs.drop_first(), title)
    }
}

/// What `get_video` returns: the first video with the given exact title in
/// the first channel with the given name.
pub open spec fn spec_get_video(
    d: Seq<ChannelView>,
    channel: Seq<char>,
    title: Seq<char>,
) -> Option<VideoView> {
    match find_channel(d, channel) {
        None => None,
        Some(c) => find_video(c.videos, title),
    }
}

/// A name that no prefix of `d` matches is found in the rest of `d`.
pub proof fn lemma_find_channel_skip(d: Seq<ChannelView>, name: Seq<char>, k: int)
    requires
        0 <= k <= d.len(),
        forall|j: int| 0 <= j < k ==> (#[trigger] d[j]).name != name,
    ensures
        find_channel(d, name) == find_channel(d.skip(k), name),
    decreases k,
{
    if k == 0 {
        assert(d.skip(0) =~= d);
    } else {
        lemma_find_channel_skip(d.drop_first(), name, k - 1);
        assert(d.drop_first().skip(k - 1) =~= d.skip(k));
    }
}

/// A title that no prefix of `vs` matches is found in the rest of `vs`.
pub proof fn lemma_find_video_skip(vs: Seq<VideoView>, title: Seq<char>, k: int)
    requires
        0 <= k <= vs.len(),
        forall|j: int| 0 <= j < k ==> (#[trigger] vs[j]).title != title,
    ensures
        find_video(vs, title) == find_video(vs.skip(k), title),
    decreases k,
{
    if k == 0 {
        assert(vs.skip(0) =~= vs);
    } else {
        lemma_find_video_skip(vs.drop_first(), title, k - 1);
        assert(vs.drop_first().skip(k - 1) =~= vs.skip(k));
    }
}

/// The views of a sequence of videos.
pub open spec fn video_views(vs: Seq<Video>) -> Seq<VideoView> {
    vs.map_values(|v: Video| v@)
}

/// The position at which `x` belongs in the location-sorted `out`: every
/// video before it is at or before `x`'s location.
fn find_insert_pos(out: &Vec<Video>, x: &Video) -> (p: usize)
    requires
        sorted_by_location(video_views(out@)),
    ensures
        p <= out@.len(),
        forall|j: int| 0 <= j < p ==> lex_le(#[trigger] video_views(out@)[j].location, x@.location),
        p < out@.len() ==> !lex_le(video_views(out@)[p as int].location, x@.location),
{
    let mut p: usize = 0;
    while p < out.len()
        invariant
            0 <= p <= out@.len(),
            forall|j: int|
                0 <= j < p ==> lex_le(#[trigger] video_views(out@)[j].location, x@.location),
        decreases out@.len() - p,
    {
        if !str_le(out[p].location.as_str(), x.location.as_str()) {
            assert(video_views(out@)[p as int] == out@[p as int]@);
            return p;
        }
        assert(video_views(out@)[p as int] == out@[p as int]@);
        p += 1;
    }
    p
}

/// Inserts `x` into the location-sorted `out`, keeping it sorted.
fn insert_sorted(out: &mut Vec<Video>, x: Video)
    requires
        sorted_by_location(video_views(old(out)@)),
    ensures
        sorted_by_location(video_views(final(out)@)),
        video_views(final(out)@).to_multiset() == video_views(old(out)@).to_multiset().insert(
            x@,
        ),
{
    let ghost ov = video_views(out@);
    let ghost xv = x@;
    let p = find_insert_pos(out, &x);
    proof {
        if (p as int) < ov.len() {
            crate::text::lemma_lex_le_total(ov[p as int].location, xv.location);
        }
    }
    out.insert(p, x);
    proof {
        broadcast use vstd::seq_lib::group_to_multiset_ensures;

        let nv = video_views(out@);
        assert(nv =~= ov.insert(p as int, xv));
        assert(ov.insert(p as int, xv).to_multiset() == ov.to_multiset().insert(xv));
        assert forall|j: int| 0 <= j && j + 1 < nv.len() implies lex_le(
            #[trigger] nv[j].location,
            nv[j + 1].location,
        ) by {
            assert(ov.insert(p as int, xv)[j] == if j < p {
                ov[j]
            } else if j == p {
                xv
            } else {
                ov[j - 1]
            });
            assert(ov.insert(p as int, xv)[j + 1] == if j + 1 < p {
                ov[j + 1]
            } else if j + 1 == p {
                xv
            } else {
                ov[j]
            });
        }
    }
}

/// Sorts the videos ascending by location; the collection of videos is
/// unchanged as a multiset.
fn sort_video_vec(vs: &mut Vec<Video>)
    ensures
        sorted_by_location(video_views(final(vs)@)),
        video_views(final(vs)@).to_multiset() == video_views(old(vs)@).to_multiset(),
{
    let ghost ov = video_views(vs@);
    let mut out: Vec<Video> = Vec::new();
    proof {
        broadcast use vstd::seq_lib::group_to_multiset_ensures;
        broadcast use vstd::multiset::group_multiset_axioms;

        assert(video_views(out@) =~= Seq::<VideoView>::empty());
        assert(video_views(out@).to_multiset().len() == 0);
        assert(video_views(out@).to_multiset() =~= Multiset::<VideoView>::empty());
        assert(video_views(out@).to_multiset().add(video_views(vs@).to_multiset())
            =~= ov.to_multiset());
    }
    while vs.len() > 0
        invariant
            video_views(out@).to_multiset().add(video_views(vs@).to_multiset())
                == ov.to_multiset(),
            sorted_by_location(video_views(out@)),
        decreases vs@.len(),
    {
        let ghost pre = video_views(vs@);
        let x = vs.pop().unwrap();
        proof {
            broadcast use vstd::seq_lib::group_to_multiset_ensures;

            assert(video_views(vs@) =~= pre.drop_last());
            assert(pre.drop_last().push(pre.last()) =~= pre);
            assert(pre.drop_last().to_multiset().insert(x@) == pre.to_multiset());
            vstd::multiset::axiom_multiset_add(
                video_views(out@).to_multiset(),
                video_views(vs@).to_multiset(),
                x@,
            );
        }
        insert_sorted(&mut out, x);
        proof {
            broadcast use vstd::multiset::group_multiset_axioms;

            assert(video_views(out@).to_multiset().add(video_views(vs@).to_multiset())
                =~= ov.to_multiset());
        }
    }
    proof {
        broadcast use vstd::seq_lib::group_to_multiset_ensures;
        broadcast use vstd::multiset::group_multiset_axioms;

        assert(video_views(vs@) =~= Seq::<VideoView>::empty());
        assert(video_views(vs@).to_multiset().len() == 0);
        assert(video_views(vs@).to_multiset() =~= Multiset::<VideoView>::empty());
        assert(video_views(out@).to_multiset() =~= ov.to_multiset());
    }
    *vs = out;
}

impl Data {
    /// Sorts every channel's videos ascending by file location.  Channels
    /// keep their names and their videos; only the order within each channel
    /// changes.
    pub fn sort_videos(&mut self)
        ensures
            final(self)@.len() == old(self)@.len(),
            forall|i: int|
                0 <= i < old(self)@.len() ==> {
                    &&& (#[trigger] final(self)@[i]).name == old(self)@[i].name
                    &&& final(self)@[i].videos.to_multiset() == old(self)@[i].videos.to_multiset()
                    &&& sorted_by_location(final(self)@[i].videos)
                },
    {
        let mut pending: Vec<Channel> = Vec::new();
        core::mem::swap(&mut pending, &mut self.channels);
        let ghost orig: Seq<ChannelView> = pending@.map_values(|c: Channel| c@);
        while pending.len() > 0
            invariant
                self@.len() + pending@.len() == orig.len(),
                forall|i: int|
                    0 <= i < pending@.len() ==> (#[trigger] pending@[i])@ == orig[self@.len()
                        + i],
                forall|i: int|
                    0 <= i < self@.len() ==> {
                        &&& (#[trigger] self@[i]).name == orig[i].name
                        &&& self@[i].videos.to_multiset() == orig[i].videos.to_multiset()
                        &&& sorted_by_location(self@[i].videos)
                    },
            decreases pending@.len(),
        {
            let ghost k = self@.len() as int;
            let ghost pre_pending = pending@;
            let mut c = pending.remove(0);
            proof {
                assert(pre_pending[0]@ == orig[k]);
                assert(forall|i: int|
                    0 <= i < pending@.len() ==> (#[trigger] pending@[i]) == pre_pending[i + 1]);
            }
            assert(c@ == orig[k]);
            sort_video_vec(&mut c.videos);
            proof {
                assert(c@.videos == video_views(c.videos@));
                assert(orig[k].videos.to_multiset() == c@.videos.to_multiset());
            }
            let ghost before = self@;
            self.channels.push(c);
            proof {
                assert(self@ =~= before.push(c@));
                assert(self@[k] == c@);
            }
        }
    }
}

/// The channel's videos with the first video of the given exact title
/// removed; unchanged when no video bears the title.
pub open spec fn remove_first_video(vs: Seq<VideoView>, title: Seq<char>) -> Seq<VideoView>
    decreases vs.len(),
{
    if vs.len() == 0 {
        vs
    } else if vs[0].title == title {
        vs.drop_first()
    } else {
        seq![vs[0]] + remove_first_video(vs.drop_first(), title)
    }
}

/// The catalog after the watched-removal of (channel, title): the first
/// channel of that name loses its first video of that title; everything else
/// is untouched.
pub open spec fn spec_remove_video(
    d: Seq<ChannelView>,
    channel: Seq<char>,
    title: Seq<char>,
) -> Seq<ChannelView>
    decreases d.len(),
{
    if d.len() == 0 {
        d
    } else if d[0].name == channel {
        seq![
            ChannelView { name: d[0].name, videos: remove_first_video(d[0].videos, title) },
        ] + d.drop_first()
    } else {
        seq![d[0]] + spec_remove_video(d.drop_first(), channel, title)
    }
}

/// When a title first occurs at index `k`, removing it removes exactly that
/// index.
pub proof fn lemma_remove_first_at(vs: Seq<VideoView>, title: Seq<char>, k: int)
    requires
        0 <= k < vs.len(),
        vs[k].title == title,
        forall|j: int| 0 <= j < k ==> (#[trigger] vs[j]).title != title,
    ensures
        remove_first_video(vs, title) == vs.remove(k),
    decreases k,
{
    if k == 0 {
        assert(remove_first_video(vs, title) =~= vs.remove(0));
    } else {
        lemma_remove_first_at(vs.drop_first(), title, k - 1);
        assert(remove_first_video(vs, title) =~= vs.remove(k));
    }
}

/// Removing an absent title changes nothing.
pub proof fn lemma_remove_first_absent(vs: Seq<VideoView>, title: Seq<char>)
    requires
        forall|j: int| 0 <= j < vs.len() ==> (#[trigger] vs[j]).title != title,
    ensures
        remove_first_video(vs, title) == vs,
    decreases vs.len(),
{
    if vs.len() > 0 {
        lemma_remove_first_absent(vs.drop_first(), title);
        assert(remove_first_video(vs, title) =~= vs);
    }
}

/// When a name first occurs at index `ci`, the watched-removal updates
/// exactly that channel.
pub proof fn lemma_spec_remove_at(
    d: Seq<ChannelView>,
    channel: Seq<char>,
    title: Seq<char>,
    ci: int,
)
    requires
        0 <= ci < d.len(),
        d[ci].name == channel,
        forall|j: int| 0 <= j < ci ==> (#[trigger] d[j]).name != channel,
    ensures
        spec_remove_video(d, channel, title) == d.update(
            ci,
            ChannelView { name: d[ci].name, videos: remove_first_video(d[ci].videos, title) },
        ),
    decreases ci,
{
    if ci == 0 {
        assert(spec_remove_video(d, channel, title) =~= d.update(
            0,
            ChannelView { name: d[0].name, videos: remove_first_video(d[0].videos, title) },
        ));
    } else {
        lemma_spec_remove_at(d.drop_first(), channel, title, ci - 1);
        assert(spec_remove_video(d, channel, title) =~= d.update(
            ci,
            ChannelView { name: d[ci].name, videos: remove_first_video(d[ci].videos, title) },
        ));
    }
}

/// The watched-removal of a name no channel bears changes nothing.
pub proof fn lemma_spec_remove_absent(d: Seq<ChannelView>, channel: Seq<char>, title: Seq<char>)
    requires
        forall|j: int| 0 <= j < d.len() ==> (#[trigger] d[j]).name != channel,
    ensures
        spec_remove_video(d, channel, title) == d,
    decreases d.len(),
{
    if d.len() > 0 {
        lemma_spec_remove_absent(d.drop_first(), channel, title);
        assert(spec_remove_video(d, channel, title) =~= d);
    }
}

/// A found channel lies at a first index.
pub proof fn lemma_find_channel_first(d: Seq<ChannelView>, name: Seq<char>) -> (ci: int)
    requires
        find_channel(d, name) is Some,
    ensures
        0 <= ci < d.len(),
        d[ci].name == name,
        forall|j: int| 0 <= j < ci ==> (#[trigger] d[j]).name != name,
        find_channel(d, name) == Some(d[ci]),
    decreases d.len(),
{
    if d[0].name == name {
        0
    } else {
        let rest = lemma_find_channel_first(d.drop_first(), name);
        assert forall|j: int| 0 <= j < rest + 1 implies (#[trigger] d[j]).name != name by {
            if j > 0 {
                assert(d[j] == d.drop_first()[j - 1]);
            }
        }
        rest + 1
    }
}

/// A found video lies at a first index.
pub proof fn lemma_find_video_first(vs: Seq<VideoView>, title: Seq<char>) -> (vi: int)
    requires
        find_video(vs, title) is Some,
    ensures
        0 <= vi < vs.len(),
        vs[vi].title == title,
        forall|j: int| 0 <= j < vi ==> (#[trigger] vs[j]).title != title,
        find_video(vs, title) == Some(vs[vi]),
    decreases vs.len(),
{
    if vs[0].title == title {
        0
    } else {
        let rest = lemma_find_video_first(vs.drop_first(), title);
        assert forall|j: int| 0 <= j < rest + 1 implies (#[trigger] vs[j]).title != title by {
            if j > 0 {
                assert(vs[j] == vs.drop_first()[j - 1]);
            }
        }
        rest + 1
    }
}

/// An unfound channel name occurs nowhere.
pub proof fn lemma_find_channel_none(d: Seq<ChannelView>, name: Seq<char>)
    requires
        find_channel(d, name) is None,
    ensures
        forall|j: int| 0 <= j < d.len() ==> (#[trigger] d[j]).name != name,
    decreases d.len(),
{
    if d.len() > 0 {
        lemma_find_channel_none(d.drop_first(), name);
        assert forall|j: int| 0 <= j < d.len() implies (#[trigger] d[j]).name != name by {
            if j > 0 {
                assert(d[j] == d.drop_first()[j - 1]);
            }
        }
    }
}

/// An unfound title occurs nowhere.
pub proof fn lemma_find_video_none(vs: Seq<VideoView>, title: Seq<char>)
    requires
        find_video(vs, title) is None,
    ensures
        forall|j: int| 0 <= j < vs.len() ==> (#[trigger] vs[j]).title != title,
    decreases vs.len(),
{
    if vs.len() > 0 {
        lemma_find_video_none(vs.drop_first(), title);
        assert forall|j: int| 0 <= j < vs.len() implies (#[trigger] vs[j]).title != title by {
            if j > 0 {
                assert(vs[j] == vs.drop_first()[j - 1]);
            }
        }
    }
}

/// Law: a lookup succeeds exactly when the first channel of the given name
/// holds a video of the given exact title.
pub proof fn lemma_get_video_present(d: Seq<ChannelView>, channel: Seq<char>, title: Seq<char>)
    ensures
        (spec_get_video(d, channel, title) is Some) <==> match find_channel(d, channel) {
            Some(c) => exists|i: int|
                0 <= i < c.videos.len() && (#[trigger] c.videos[i]).title == title,
            None => false,
        },
{
    match find_channel(d, channel) {
        Some(c) => {
            if find_video(c.videos, title) is Some {
                let vi = lemma_find_video_first(c.videos, title);
            } else {
                lemma_find_video_none(c.videos, title);
            }
        },
        None => {},
    }
}

/// Law: after the watched-removal of (channel, title), looking the same
/// title up in the same channel finds nothing — provided the channel held at
/// most one video of that title (with duplicate titles, a later duplicate
/// would remain and be found).
pub proof fn lemma_removed_video_gone(d: Seq<ChannelView>, channel: Seq<char>, title: Seq<char>)
    requires
        match find_channel(d, channel) {
            Some(c) => forall|i: int, j: int|
                0 <= i < j < c.videos.len() ==> !((#[trigger] c.videos[i]).title == title
                    && (#[trigger] c.videos[j]).title == title),
            None => true,
        },
    ensures
        spec_get_video(spec_remove_video(d, channel, title), channel, title) is None,
{
    if find_channel(d, channel) is None {
        lemma_find_channel_none(d, channel);
        lemma_spec_remove_absent(d, channel, title);
    } else {
        let c = find_channel(d, channel)->Some_0;
        let ci = lemma_find_channel_first(d, channel);
        assert(c == d[ci]);
        let cv = ChannelView {
            name: d[ci].name,
            videos: remove_first_video(d[ci].videos, title),
        };
        lemma_spec_remove_at(d, channel, title, ci);
        let d2 = d.update(ci, cv);
        assert(forall|j: int| 0 <= j < ci ==> (#[trigger] d2[j]).name != channel);
        lemma_find_channel_skip(d2, channel, ci);
        assert(d2.skip(ci)[0] == d2[ci]);
        assert(find_channel(d2, channel) == Some(cv));
        if find_video(c.videos, title) is None {
            lemma_find_video_none(c.videos, title);
            lemma_remove_first_absent(c.videos, title);
            assert(cv.videos == c.videos);
        } else {
            let vi = lemma_find_video_first(c.videos, title);
            lemma_remove_first_at(c.videos, title, vi);
            assert(cv.videos == c.videos.remove(vi));
            assert forall|m: int| 0 <= m < cv.videos.len() implies (#[trigger] cv.videos[m]).title
                != title by {
                if m < vi {
                    assert(cv.videos[m] == c.videos[m]);
                } else {
                    assert(cv.videos[m] == c.videos[m + 1]);
                }
            }
            lemma_find_video_skip(cv.videos, title, cv.videos.len() as int);
            assert(cv.videos.skip(cv.videos.len() as int).len() == 0);
        }
        if find_video(cv.videos, title) is Some {
            let wi = lemma_find_video_first(cv.videos, title);
            assert(false);
        }
    }
}

impl Data {
    /// Removes the first video of the given exact title from the first
    /// channel of the given name: the in-memory half of marking a video
    /// watched, performed once the file itself has been moved.  Returns
    /// whether a video was removed; when none matched, the catalog is
    /// unchanged.
    pub fn remove_video(&mut self, channel: &str, title: &str) -> (removed: bool)
        ensures
            removed == (spec_get_video(old(self)@, channel@, title@) is Some),
            final(self)@ == spec_remove_video(old(self)@, channel@, title@),
    {
        let ghost d0 = self@;
        let mut i: usize = 0;
        while i < self.channels.len()
            invariant
                0 <= i <= self.channels.len(),
                self@ == d0,
                d0 == old(self)@,
                d0.len() == self.channels.len(),
                forall|j: int| 0 <= j < i ==> (#[trigger] d0[j]).name != channel@,
            decreases self.channels.len() - i,
        {
            if str_eq(self.channels[i].name.as_str(), channel) {
                proof {
                    assert(d0[i as int] == self.channels@[i as int]@);
                    lemma_find_channel_skip(d0, channel@, i as int);
                    assert(d0.skip(i as int)[0] == d0[i as int]);
                    assert(find_channel(d0, channel@) == Some(d0[i as int]));
                    lemma_spec_remove_at(d0, channel@, title@, i as int);
                }
                let ghost chv = d0[i as int];
                let ghost pre_channels = self.channels@;
                let mut ch = self.channels.remove(i);
                assert(ch@ == chv);
                let mut k: usize = 0;
                while k < ch.videos.len()
                    invariant
                        0 <= k <= ch.videos.len(),
                        ch@ == chv,
                        chv == d0[i as int],
                        chv.videos.len() == ch.videos.len(),
                        i < d0.len(),
                        d0 == old(self)@,
                        d0.len() == pre_channels.len(),
                        d0 == pre_channels.map_values(|c: Channel| c@),
                        self.channels@ == pre_channels.remove(i as int),
                        find_channel(d0, channel@) == Some(chv),
                        d0[i as int].name == channel@,
                        forall|j: int| 0 <= j < i ==> (#[trigger] d0[j]).name != channel@,
                        forall|j: int| 0 <= j < k ==> (#[trigger] chv.videos[j]).title != title@,
                    decreases ch.videos.len() - k,
                {
                    if str_eq(ch.videos[k].title.as_str(), title) {
                        proof {
                            assert(chv.videos[k as int] == ch.videos@[k as int]@);
                            lemma_find_video_skip(chv.videos, title@, k as int);
                            assert(chv.videos.skip(k as int)[0] == chv.videos[k as int]);
                            assert(find_video(chv.videos, title@) == Some(chv.videos[k as int]));
                            lemma_remove_first_at(chv.videos, title@, k as int);
                        }
                        ch.videos.remove(k);
                        let ghost chv2 = ch@;
                        let ghost chx = ch;
                        proof {
                            assert(chv2.videos =~= chv.videos.remove(k as int));
                            assert(chv2 == ChannelView {
                                name: chv.name,
                                videos: remove_first_video(chv.videos, title@),
                            });
                        }
                        self.channels.insert(i, ch);
                        proof {
                            lemma_spec_remove_at(d0, channel@, title@, i as int);
                            let cur = self.channels@;
                            assert(cur == pre_channels.remove(i as int).insert(i as int, chx));
                            assert(cur.len() == d0.len());
                            assert(self@ == cur.map_values(|c: Channel| c@));
                            assert forall|j: int| 0 <= j < d0.len() implies (#[trigger] self@[j])
                                == d0.update(i as int, chv2)[j] by {
                                if j == i {
                                    assert(cur[j] == chx);
                                } else if j < i {
                                    assert(cur[j] == pre_channels[j]);
                                    assert(d0[j] == pre_channels[j]@);
                                } else {
                                    assert(cur[j] == pre_channels[j]);
                                    assert(d0[j] == pre_channels[j]@);
                                }
                            }
                            assert(self@ =~= d0.update(i as int, chv2));
                        }
                        return true;
                    }
                    proof {
                        assert(chv.videos[k as int] == ch.videos@[k as int]@);
                    }
                    k += 1;
                }
                proof {
                    lemma_find_video_skip(chv.videos, title@, chv.videos.len() as int);
                    assert(chv.videos.skip(chv.videos.len() as int).len() == 0);
                    lemma_remove_first_absent(chv.videos, title@);
                }
                let ghost chx = ch;
                self.channels.insert(i, ch);
                proof {
                    let cur = self.channels@;
                    assert(cur == pre_channels.remove(i as int).insert(i as int, chx));
                    assert(cur.len() == d0.len());
                    assert(chx@ == chv);
                    assert(ChannelView { name: chv.name, videos: chv.videos } == chv);
                    assert(self@ == cur.map_values(|c: Channel| c@));
                    assert forall|j: int| 0 <= j < d0.len() implies (#[trigger] self@[j])
                        == d0.update(i as int, chv)[j] by {
                        if j == i {
                            assert(cur[j] == chx);
                        } else if j < i {
                            assert(cur[j] == pre_channels[j]);
                            assert(d0[j] == pre_channels[j]@);
                        } else {
                            assert(cur[j] == pre_channels[j]);
                            assert(d0[j] == pre_channels[j]@);
                        }
                    }
                    assert(self@ =~= d0.update(i as int, chv));
                    assert(spec_remove_video(d0, channel@, title@) == d0.update(
                        i as int,
                        ChannelView {
                            name: chv.name,
                            videos: remove_first_video(chv.videos, title@),
                        },
                    ));
                }
                return false;
            }
            proof {
                assert(d0[i as int] == self.channels@[i as int]@);
            }
            i += 1;
        }
        proof {
            lemma_find_channel_skip(d0, channel@, d0.len() as int);
            assert(d0.skip(d0.len() as int).len() == 0);
            lemma_spec_remove_absent(d0, channel@, title@);
        }
        false
    }
}

/// The views of a sequence of strings.
pub open spec fn str_views(s: Seq<String>) -> Seq<Seq<char>> {
    s.map_values(|x: String| x@)
}

/// The names are ordered case-insensitively, ascending.
pub open spec fn sorted_ci(s: Seq<Seq<char>>) -> bool {
    forall|i: int|
        0 <= i && i + 1 < s.len() ==> lex_le(lower_of(#[trigger] s[i]), lower_of(s[i + 1]))
}

/// A video matches a search term (already case-folded) when its title, or
/// its channel's name, contains the term case-insensitively.
pub open spec fn video_matches(v: VideoView, cname: Seq<char>, sl: Seq<char>) -> bool {
    has_substring(lower_of(v.title), sl) || has_substring(lower_of(cname), sl)
}

/// A channel matches a search term (already case-folded) when its name, or
/// at least one of its videos' titles, contains the term case-insensitively.
pub open spec fn channel_matches(c: ChannelView, sl: Seq<char>) -> bool {
    has_substring(lower_of(c.name), sl) || exists|i: int|
        0 <= i < c.videos.len() && has_substring(lower_of((#[trigger] c.videos[i]).title), sl)
}

/// Some channel bears this name and matches the search term.
pub open spec fn matching_channel_named(
    d: Seq<ChannelView>,
    name: Seq<char>,
    sl: Seq<char>,
) -> bool {
    exists|i: int| 0 <= i < d.len() && (#[trigger] d[i]).name == name && channel_matches(d[i], sl)
}

/// Decides `channel_matches` against the already-folded search term `sl`.
fn matches_search(c: &Channel, sl: &str) -> (r: bool)
    ensures
        r == channel_matches(c@, sl@),
{
    let ln = to_lower(c.name.as_str());
    if contains_sub(ln.as_str(), sl) {
        return true;
    }
    let mut i: usize = 0;
    while i < c.videos.len()
        invariant
            0 <= i <= c.videos.len(),
            c@.videos.len() == c.videos.len(),
            !has_substring(lower_of(c@.name), sl@),
            forall|j: int|
                0 <= j < i ==> !has_substring(lower_of((#[trigger] c@.videos[j]).title), sl@),
        decreases c.videos.len() - i,
    {
        let lt = to_lower(c.videos[i].title.as_str());
        if contains_sub(lt.as_str(), sl) {
            proof {
                assert(c@.videos[i as int] == c.videos@[i as int]@);
            }
            return true;
        }
        proof {
            assert(c@.videos[i as int] == c.videos@[i as int]@);
        }
        i += 1;
    }
    false
}

/// Is some string with this view already in the vector?
fn vec_has_name(names: &Vec<String>, x: &str) -> (r: bool)
    ensures
        r == str_views(names@).contains(x@),
{
    let mut i: usize = 0;
    while i < names.len()
        invariant
            0 <= i <= names.len(),
            forall|j: int| 0 <= j < i ==> #[trigger] str_views(names@)[j] != x@,
        decreases names.len() - i,
    {
        if str_eq(names[i].as_str(), x) {
            assert(str_views(names@)[i as int] == x@);
            return true;
        }
        assert(str_views(names@)[i as int] == names@[i as int]@);
        i += 1;
    }
    false
}

/// The position at which `x` belongs in the case-insensitively sorted `out`.
fn find_pos_ci(out: &Vec<String>, x: &String) -> (p: usize)
    requires
        sorted_ci(str_views(out@)),
    ensures
        p <= out@.len(),
        forall|j: int|
            0 <= j < p ==> lex_le(lower_of(#[trigger] str_views(out@)[j]), lower_of(x@)),
        p < out@.len() ==> !lex_le(lower_of(str_views(out@)[p as int]), lower_of(x@)),
{
    let xl = to_lower(x.as_str());
    let mut p: usize = 0;
    while p < out.len()
        invariant
            0 <= p <= out@.len(),
            xl@ == lower_of(x@),
            forall|j: int|
                0 <= j < p ==> lex_le(lower_of(#[trigger] str_views(out@)[j]), lower_of(x@)),
        decreases out@.len() - p,
    {
        let ol = to_lower(out[p].as_str());
        if !str_le(ol.as_str(), xl.as_str()) {
            assert(str_views(out@)[p as int] == out@[p as int]@);
            return p;
        }
        assert(str_views(out@)[p as int] == out@[p as int]@);
        p += 1;
    }
    p
}

/// Inserts `x` into the case-insensitively sorted `out`, keeping it sorted.
fn insert_ci(out: &mut Vec<String>, x: String)
    requires
        sorted_ci(str_views(old(out)@)),
    ensures
        sorted_ci(str_views(final(out)@)),
        str_views(final(out)@).to_multiset() == str_views(old(out)@).to_multiset().insert(x@),
{
    let ghost ov = str_views(out@);
    let ghost xv = x@;
    let p = find_pos_ci(out, &x);
    proof {
        if (p as int) < ov.len() {
            crate::text::lemma_lex_le_total(lower_of(ov[p as int]), lower_of(xv));
        }
    }
    out.insert(p, x);
    proof {
        broadcast use vstd::seq_lib::group_to_multiset_ensures;

        let nv = str_views(out@);
        assert(nv =~= ov.insert(p as int, xv));
        assert(ov.insert(p as int, xv).to_multiset() == ov.to_multiset().insert(xv));
        assert forall|j: int| 0 <= j && j + 1 < nv.len() implies lex_le(
            lower_of(#[trigger] nv[j]),
            lower_of(nv[j + 1]),
        ) by {
            assert(ov.insert(p as int, xv)[j] == if j < p {
                ov[j]
            } else if j == p {
                xv
            } else {
                ov[j - 1]
            });
            assert(ov.insert(p as int, xv)[j + 1] == if j + 1 < p {
                ov[j + 1]
            } else if j + 1 == p {
                xv
            } else {
                ov[j]
            });
        }
    }
}

/// Sorts the names case-insensitively; the collection of names is unchanged
/// as a multiset.
fn sort_ci(names: &mut Vec<String>)
    ensures
        sorted_ci(str_views(final(names)@)),
        str_views(final(names)@).to_multiset() == str_views(old(names)@).to_multiset(),
{
    let ghost ov = str_views(names@);
    let mut out: Vec<String> = Vec::new();
    proof {
        broadcast use vstd::seq_lib::group_to_multiset_ensures;
        broadcast use vstd::multiset::group_multiset_axioms;

        assert(str_views(out@) =~= Seq::<Seq<char>>::empty());
        assert(str_views(out@).to_multiset().len() == 0);
        assert(str_views(out@).to_multiset() =~= Multiset::<Seq<char>>::empty());
        assert(str_views(out@).to_multiset().add(str_views(names@).to_multiset())
            =~= ov.to_multiset());
    }
    while names.len() > 0
        invariant
            str_views(out@).to_multiset().add(str_views(names@).to_multiset())
                == ov.to_multiset(),
            sorted_ci(str_views(out@)),
        decreases names@.len(),
    {
        let ghost pre = str_views(names@);
        let x = names.pop().unwrap();
        proof {
            broadcast use vstd::seq_lib::group_to_multiset_ensures;

            assert(str_views(names@) =~= pre.drop_last());
            assert(pre.drop_last().push(pre.last()) =~= pre);
            assert(pre.drop_last().to_multiset().insert(x@) == pre.to_multiset());
        }
        insert_ci(&mut out, x);
        proof {
            broadcast use vstd::multiset::group_multiset_axioms;

            assert(str_views(out@).to_multiset().add(str_views(names@).to_multiset())
                =~= ov.to_multiset());
        }
    }
    proof {
        broadcast use vstd::seq_lib::group_to_multiset_ensures;
        broadcast use vstd::multiset::group_multiset_axioms;

        assert(str_views(names@) =~= Seq::<Seq<char>>::empty());
        assert(str_views(names@).to_multiset().len() == 0);
        assert(str_views(names@).to_multiset() =~= Multiset::<Seq<char>>::empty());
        assert(str_views(out@).to_multiset() =~= ov.to_multiset());
    }
    *names = out;
}

impl Data {
    /// The names of the channels that match the search term: a channel
    /// qualifies when its name, or one of its videos' titles, contains the
    /// term case-insensitively.  Every qualifying channel's name appears
    /// exactly once, sorted case-insensitively; an empty term matches every
    /// channel.
    pub fn channel_list(&self, search: &str) -> (r: Vec<String>)
        ensures
            sorted_ci(str_views(r@)),
            str_views(r@).no_duplicates(),
            forall|name: Seq<char>| #[trigger]
                str_views(r@).contains(name) <==> matching_channel_named(
                    self@,
                    name,
                    lower_of(search@),
                ),
            search@.len() == 0 ==> forall|i: int|
                0 <= i < self@.len() ==> str_views(r@).contains((#[trigger] self@[i]).name),
    {
        let sl = to_lower(search);
        let mut names: Vec<String> = Vec::new();
        let mut i: usize = 0;
        proof {
            assert(str_views(names@) =~= Seq::<Seq<char>>::empty());
        }
        while i < self.channels.len()
            invariant
                0 <= i <= self.channels.len(),
                self@.len() == self.channels.len(),
                sl@ == lower_of(search@),
                str_views(names@).no_duplicates(),
                forall|name: Seq<char>| #[trigger]
                    str_views(names@).contains(name) <==> exists|ci: int|
                        0 <= ci < i && (#[trigger] self@[ci]).name == name && channel_matches(
                            self@[ci],
                            sl@,
                        ),
            decreases self.channels.len() - i,
        {
            let ghost pre = str_views(names@);
            proof {
                assert(self@[i as int] == self.channels@[i as int]@);
            }
            if matches_search(&self.channels[i], sl.as_str()) {
                if !vec_has_name(&names, self.channels[i].name.as_str()) {
                    names.push(self.channels[i].name.clone());
                    proof {
                        assert(str_views(names@) =~= pre.push(self@[i as int].name));
                        assert forall|name: Seq<char>| #[trigger]
                            str_views(names@).contains(name) implies (exists|ci: int|
                            0 <= ci < i + 1 && (#[trigger] self@[ci]).name == name
                                && channel_matches(self@[ci], sl@)) by {
                            let w = choose|w: int|
                                0 <= w < str_views(names@).len() && str_views(names@)[w] == name;
                            if w < pre.len() {
                                assert(pre.contains(name));
                            } else {
                                assert(name == self@[i as int].name);
                                assert(channel_matches(self@[i as int], sl@));
                            }
                        }
                        assert forall|name: Seq<char>|
                            (exists|ci: int|
                                0 <= ci < i + 1 && (#[trigger] self@[ci]).name == name
                                    && channel_matches(self@[ci], sl@)) implies #[trigger]
                        str_views(names@).contains(name) by {
                            let ci = choose|ci: int|
                                0 <= ci < i + 1 && (#[trigger] self@[ci]).name == name
                                    && channel_matches(self@[ci], sl@);
                            if ci < i {
                                assert(pre.contains(name));
                                let w = choose|w: int|
                                    0 <= w < pre.len() && pre[w] == name;
                                assert(str_views(names@)[w] == name);
                            } else {
                                assert(str_views(names@)[pre.len() as int] == name);
                            }
                        }
                        assert forall|a: int, b: int|
                            0 <= a < b < str_views(names@).len() implies str_views(names@)[a]
                            != str_views(names@)[b] by {
                            if b < pre.len() {
                            } else {
                                assert(str_views(names@)[b] == self@[i as int].name);
                                assert(str_views(names@)[a] == pre[a]);
                                assert(!pre.contains(self@[i as int].name));
                            }
                        }
                    }
                } else {
                    proof {
                        assert forall|name: Seq<char>|
                            (exists|ci: int|
                                0 <= ci < i + 1 && (#[trigger] self@[ci]).name == name
                                    && channel_matches(self@[ci], sl@)) implies #[trigger]
                        str_views(names@).contains(name) by {
                            let ci = choose|ci: int|
                                0 <= ci < i + 1 && (#[trigger] self@[ci]).name == name
                                    && channel_matches(self@[ci], sl@);
                            if ci == i as int {
                                assert(str_views(names@).contains(self@[i as int].name));
                            }
                        }
                    }
                }
            }
            i += 1;
        }
        proof {
            str_views(names@).lemma_multiset_has_no_duplicates();
        }
        let ghost pre_sort = str_views(names@);
        sort_ci(&mut names);
        proof {
            broadcast use vstd::seq_lib::group_to_multiset_ensures;

            assert forall|name: Seq<char>| #[trigger]
                str_views(names@).contains(name) == pre_sort.contains(name) by {
                assert(str_views(names@).to_multiset().count(name) == pre_sort.to_multiset().count(
                    name,
                ));
            }
            str_views(names@).lemma_multiset_has_no_duplicates_conv();
            if search@.len() == 0 {
                assert forall|ci: int| 0 <= ci < self@.len() implies str_views(names@).contains(
                    (#[trigger] self@[ci]).name,
                ) by {
                    assert(has_substring(lower_of(self@[ci].name), lower_of(search@))) by {
                        assert(lower_of(search@).len() == 0);
                        assert(lower_of(self@[ci].name).subrange(0, 0) =~= lower_of(search@));
                        assert(crate::text::has_substring_at(
                            lower_of(self@[ci].name),
                            lower_of(search@),
                            0,
                        ));
                    }
                    assert(channel_matches(self@[ci], lower_of(search@)));
                }
            }
        }
        names
    }
}

/// The titles of the videos of `c` that match the (already case-folded)
/// search term, in their order within the channel.
pub open spec fn matching_titles(c: ChannelView, sl: Seq<char>) -> Seq<Seq<char>> {
    c.videos.filter(|v: VideoView| video_matches(v, c.name, sl)).map_values(
        |v: VideoView| v.title,
    )
}

/// A filter that holds of every element keeps the whole sequence.
proof fn lemma_filter_all(s: Seq<VideoView>, pred: spec_fn(VideoView) -> bool)
    requires
        forall|i: int| 0 <= i < s.len() ==> pred(#[trigger] s[i]),
    ensures
        s.filter(pred) == s,
    decreases s.len(),
{
    reveal(Seq::filter);
    if s.len() == 0 {
        assert(s.filter(pred) =~= s);
    } else {
        lemma_filter_all(s.drop_last(), pred);
        assert(s.filter(pred) =~= s.drop_last().push(s.last()));
        assert(s.drop_last().push(s.last()) =~= s);
    }
}

impl Data {
    /// The titles of the named channel's videos that match the search term,
    /// sorted case-insensitively.  A video matches when its title contains
    /// the term case-insensitively, or the channel's own name does (a
    /// channel-name match surfaces all of the channel's videos).  An unknown
    /// channel yields an empty list.
    pub fn list_videos(&self, channel: &str, search: &str) -> (r: Vec<String>)
        ensures
            sorted_ci(str_views(r@)),
            match find_channel(self@, channel@) {
                None => r@.len() == 0,
                Some(c) => str_views(r@).to_multiset() == matching_titles(
                    c,
                    lower_of(search@),
                ).to_multiset(),
            },
            search@.len() == 0 ==> match find_channel(self@, channel@) {
                None => r@.len() == 0,
                Some(c) => str_views(r@).to_multiset() == c.videos.map_values(
                    |v: VideoView| v.title,
                ).to_multiset(),
            },
    {
        let sl = to_lower(search);
        let mut i: usize = 0;
        while i < self.channels.len()
            invariant
                0 <= i <= self.channels.len(),
                self@.len() == self.channels.len(),
                sl@ == lower_of(search@),
                search@.len() == 0 ==> sl@.len() == 0,
                forall|j: int| 0 <= j < i ==> (#[trigger] self@[j]).name != channel@,
            decreases self.channels.len() - i,
        {
            if str_eq(self.channels[i].name.as_str(), channel) {
                let ghost c = self@[i as int];
                let ghost pred = |v: VideoView| video_matches(v, c.name, sl@);
                proof {
                    lemma_find_channel_skip(self@, channel@, i as int);
                    assert(self@.skip(i as int)[0] == self@[i as int]);
                    assert(find_channel(self@, channel@) == Some(c));
                }
                let lname = to_lower(self.channels[i].name.as_str());
                let name_hit = contains_sub(lname.as_str(), sl.as_str());
                let vs = &self.channels[i].videos;
                let mut titles: Vec<String> = Vec::new();
                proof {
                    reveal(Seq::filter);
                    assert(str_views(titles@) =~= Seq::<Seq<char>>::empty());
                    assert(c.videos.take(0) =~= Seq::<VideoView>::empty());
                    assert(str_views(titles@) =~= c.videos.take(0).filter(pred).map_values(
                        |v: VideoView| v.title,
                    ));
                }
                let mut k: usize = 0;
                while k < vs.len()
                    invariant
                        0 <= k <= vs.len(),
                        self@.len() == self.channels.len(),
                        i < self.channels.len(),
                        vs == &self.channels[i as int].videos,
                        c == self@[i as int],
                        c.videos == vs@.map_values(|v: Video| v@),
                        sl@ == lower_of(search@),
                        pred == (|v: VideoView| video_matches(v, c.name, sl@)),
                        name_hit == has_substring(lower_of(c.name), sl@),
                        str_views(titles@) == c.videos.take(k as int).filter(pred).map_values(
                            |v: VideoView| v.title,
                        ),
                    decreases vs.len() - k,
                {
                    let ghost pre = str_views(titles@);
                    proof {
                        assert(c.videos[k as int] == vs@[k as int]@);
                    }
                    let lt = to_lower(vs[k].title.as_str());
                    let hit = name_hit || contains_sub(lt.as_str(), sl.as_str());
                    assert(hit == pred(c.videos[k as int]));
                    if hit {
                        titles.push(vs[k].title.clone());
                        proof {
                            assert(str_views(titles@) =~= pre.push(c.videos[k as int].title));
                        }
                    }
                    proof {
                        reveal(Seq::filter);
                        let t = c.videos.take(k + 1);
                        assert(t.drop_last() =~= c.videos.take(k as int));
                        assert(t.last() == c.videos[k as int]);
                        if pred(c.videos[k as int]) {
                            assert(t.filter(pred) == c.videos.take(k as int).filter(pred).push(
                                c.videos[k as int],
                            ));
                            assert(str_views(titles@) =~= t.filter(pred).map_values(
                                |v: VideoView| v.title,
                            ));
                        } else {
                            assert(t.filter(pred) == c.videos.take(k as int).filter(pred));
                        }
                    }
                    k += 1;
                }
                proof {
                    assert(c.videos.take(vs@.len() as int) =~= c.videos);
                }
                let ghost pre_sort = str_views(titles@);
                sort_ci(&mut titles);
                proof {
                    assert(pre_sort.to_multiset() == matching_titles(c, sl@).to_multiset());
                    if search@.len() == 0 {
                        assert forall|j: int| 0 <= j < c.videos.len() implies pred(
                            #[trigger] c.videos[j],
                        ) by {
                            assert(sl@.len() == 0);
                            assert(lower_of(c.videos[j].title).subrange(0, 0) =~= sl@);
                            assert(crate::text::has_substring_at(
                                lower_of(c.videos[j].title),
                                sl@,
                                0,
                            ));
                        }
                        lemma_filter_all(c.videos, pred);
                    }
                }
                return titles;
            }
            i += 1;
        }
        proof {
            lemma_find_channel_skip(self@, channel@, self@.len() as int);
            assert(self@.skip(self@.len() as int).len() == 0);
        }
        Vec::new()
    }
}

impl Data {
    /// Looks up a video by exact (case-sensitive) title within the named
    /// channel.  Returns the first match; `None` when the channel does not
    /// exist or holds no video of that title.
    pub fn get_video(&self, channel: &str, video: &str) -> (r: Option<&Video>)
        ensures
            match r {
                Some(v) => spec_get_video(self@, channel@, video@) == Some(v@),
                None => spec_get_video(self@, channel@, video@) is None,
            },
    {
        let mut i: usize = 0;
        while i < self.channels.len()
            invariant
                0 <= i <= self.channels.len(),
                self@.len() == self.channels.len(),
                forall|j: int| 0 <= j < i ==> (#[trigger] self@[j]).name != channel@,
            decreases self.channels.len() - i,
        {
            if str_eq(self.channels[i].name.as_str(), channel) {
                proof {
                    lemma_find_channel_skip(self@, channel@, i as int);
                    assert(self@.skip(i as int)[0] == self@[i as int]);
                    assert(find_channel(self@, channel@) == Some(self@[i as int]));
                }
                let vs = &self.channels[i].videos;
                let mut k: usize = 0;
                while k < vs.len()
                    invariant
                        0 <= k <= vs.len(),
                        self@.len() == self.channels.len(),
                        i < self.channels.len(),
                        vs == &self.channels[i as int].videos,
                        find_channel(self@, channel@) == Some(self@[i as int]),
                        self@[i as int].videos == vs@.map_values(|v: Video| v@),
                        forall|j: int|
                            0 <= j < k ==> (#[trigger] self@[i as int].videos[j]).title != video@,
                    decreases vs.len() - k,
                {
                    if str_eq(vs[k].title.as_str(), video) {
                        proof {
                            lemma_find_video_skip(self@[i as int].videos, video@, k as int);
                            assert(self@[i as int].videos.skip(k as int)[0]
                                == self@[i as int].videos[k as int]);
                        }
                        return Some(&vs[k]);
                    }
                    k += 1;
                }
                proof {
                    lemma_find_video_skip(self@[i as int].videos, video@, vs@.len() as int);
                    assert(self@[i as int].videos.skip(vs@.len() as int).len() == 0);
                }
                return None;
            }
            i += 1;
        }
        proof {
            lemma_find_channel_skip(self@, channel@, self@.len() as int);
            assert(self@.skip(self@.len() as int).len() == 0);
        }
        None
    }
}

} // verus!
