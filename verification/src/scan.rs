//! Building a catalog from a directory listing.
//!
//! The application reads the root directory and hands over one [`ScanEntry`]
//! per direct child; everything from there on — parsing the filename
//! convention `<channel>__<separator char><title>`, skipping hidden and
//! unattributable files, grouping by channel and sorting — is verified here.
//! The path of the `watched` subdirectory a file moves to when marked
//! watched is computed here as well.

use vstd::prelude::*;

use crate::data::sorted_by_location;
use crate::data::unique_names;
use crate::data::Channel;
use crate::data::Data;
use crate::data::Video;
use crate::data::VideoView;
use crate::text::str_eq;

verus! {

/// The two-character delimiter `__` occurs in `s` at position `i`.
pub open spec fn delim_at(s: Seq<char>, i: int) -> bool {
    0 <= i && i + 2 <= s.len() && s[i] == '_' && s[i + 1] == '_'
}

/// The position of the first occurrence of `__` in `s`, if any.
pub open spec fn first_delim(s: Seq<char>) -> Option<int>
    decreases s.len(),
{
    if s.len() < 2 {
        None
    } else if s[0] == '_' && s[1] == '_' {
        Some(0)
    } else {
        match first_delim(s.drop_first()) {
            None => None,
            Some(i) => Some(i + 1),
        }
    }
}

/// How a filename is attributed: hidden files (leading `.`) and names
/// without the `__` delimiter are skipped, as is a name too short to hold a
/// separator character after the delimiter.  Otherwise the part before the
/// first `__` is the channel name, and everything after the delimiter and
/// the one separator character that follows it is the title.
pub open spec fn parse_name(s: Seq<char>) -> Option<(Seq<char>, Seq<char>)> {
    if s.len() > 0 && s[0] == '.' {
        None
    } else {
        match first_delim(s) {
            None => None,
            Some(i) => if i + 3 <= s.len() {
                Some((s.subrange(0, i), s.subrange(i + 3, s.len() as int)))
            } else {
                None
            },
        }
    }
}

/// A delimiter at `i`, with none earlier, is the first delimiter.
proof fn lemma_first_delim_at(s: Seq<char>, i: int)
    requires
        delim_at(s, i),
        forall|j: int| 0 <= j < i ==> !delim_at(s, j),
    ensures
        first_delim(s) == Some(i),
    decreases i,
{
    if i == 0 {
    } else {
        assert(!delim_at(s, 0));
        assert(delim_at(s.drop_first(), i - 1));
        assert forall|j: int| 0 <= j < i - 1 implies !delim_at(s.drop_first(), j) by {
            assert(!delim_at(s, j + 1));
        }
        lemma_first_delim_at(s.drop_first(), i - 1);
    }
}

/// With no delimiter anywhere, there is no first delimiter.
proof fn lemma_first_delim_none(s: Seq<char>)
    requires
        forall|j: int| !delim_at(s, j),
    ensures
        first_delim(s) is None,
    decreases s.len(),
{
    if s.len() >= 2 {
        assert(!delim_at(s, 0));
        assert forall|j: int| !delim_at(s.drop_first(), j) by {
            assert(!delim_at(s, j + 1));
        }
        lemma_first_delim_none(s.drop_first());
    }
}

/// Law: a filename without the `__` delimiter is never attributed to a
/// channel, on this or any later scan.
pub proof fn lemma_no_delim_excluded(name: Seq<char>)
    requires
        forall|j: int| !delim_at(name, j),
    ensures
        parse_name(name) is None,
{
    lemma_first_delim_none(name);
}

/// Law: a hidden filename (leading `.`) is never attributed to a channel,
/// whether or not it holds the `__` delimiter.
pub proof fn lemma_hidden_excluded(name: Seq<char>)
    requires
        name.len() > 0,
        name[0] == '.',
    ensures
        parse_name(name) is None,
{
}

/// Splits a filename into channel name and title, or reports that the file
/// is not indexed: hidden, no `__` delimiter, or nothing after the delimiter
/// and its separator character.
pub fn parse_filename(name: &str) -> (r: Option<(String, String)>)
    ensures
        match r {
            Some(p) => parse_name(name@) == Some((p.0@, p.1@)),
            None => parse_name(name@) is None,
        },
{
    let len: usize = name.unicode_len();
    if len > 0 && name.get_char(0) == '.' {
        return None;
    }
    if len < 2 {
        proof {
            assert forall|j: int| !delim_at(name@, j) by {}
            lemma_first_delim_none(name@);
        }
        return None;
    }
    let last: usize = len - 2;
    let mut i: usize = 0;
    while i <= last
        invariant
            0 <= i <= last + 1,
            last == len - 2,
            2 <= len,
            len == name@.len(),
            !(name@.len() > 0 && name@[0] == '.'),
            forall|j: int| 0 <= j < i ==> !delim_at(name@, j),
        decreases last + 1 - i,
    {
        let c0 = name.get_char(i);
        let c1 = name.get_char(i + 1);
        if c0 == '_' && c1 == '_' {
            proof {
                assert(delim_at(name@, i as int));
                lemma_first_delim_at(name@, i as int);
            }
            if len - i < 3 {
                return None;
            }
            let chan_part = name.substring_char(0, i);
            let title_part = name.substring_char(i + 3, len);
            let chan = chan_part.to_owned();
            let title = title_part.to_owned();
            return Some((chan, title));
        }
        proof {
            assert(!delim_at(name@, i as int));
        }
        i += 1;
    }
    proof {
        assert forall|j: int| !delim_at(name@, j) by {
            if 0 <= j < i {
            }
        }
        lemma_first_delim_none(name@);
    }
    None
}

/// Mathematical content of a [`ScanEntry`].
pub struct EntryView {
    pub name: Seq<char>,
    pub path: Seq<char>,
    pub is_file: bool,
}

/// One direct child of the root directory, as the application reports it:
/// its bare filename, its full path, and whether it is a regular file.
pub struct ScanEntry {
    pub name: String,
    pub path: String,
    pub is_file: bool,
}

impl View for ScanEntry {
    type V = EntryView;

    open spec fn view(&self) -> EntryView {
        EntryView { name: self.name@, path: self.path@, is_file: self.is_file }
    }
}

/// The views of a sequence of entries.
pub open spec fn entry_views(es: Seq<ScanEntry>) -> Seq<EntryView> {
    es.map_values(|e: ScanEntry| e@)
}

/// The video an entry contributes, and the channel it belongs to: only a
/// regular file whose name parses is indexed; its title is the parsed title
/// and its location the entry's full path.
pub open spec fn entry_video(e: EntryView) -> Option<(Seq<char>, VideoView)> {
    if !e.is_file {
        None
    } else {
        match parse_name(e.name) {
            None => None,
            Some(p) => Some((p.0, VideoView { title: p.1, location: e.path })),
        }
    }
}

/// The videos the entries contribute to one channel, in entry order.
pub open spec fn videos_for(es: Seq<EntryView>, chan: Seq<char>) -> Seq<VideoView>
    decreases es.len(),
{
    if es.len() == 0 {
        Seq::<VideoView>::empty()
    } else {
        let init = videos_for(es.drop_last(), chan);
        match entry_video(es.last()) {
            None => init,
            Some(p) => if p.0 == chan {
                init.push(p.1)
            } else {
                init
            },
        }
    }
}

/// Every video of a channel comes from some entry.
pub proof fn lemma_videos_for_member(es: Seq<EntryView>, chan: Seq<char>, vi: int)
    requires
        0 <= vi < videos_for(es, chan).len(),
    ensures
        exists|k: int|
            0 <= k < es.len() && entry_video(#[trigger] es[k]) == Some(
                (chan, videos_for(es, chan)[vi]),
            ),
    decreases es.len(),
{
    let init = videos_for(es.drop_last(), chan);
    if vi < init.len() {
        lemma_videos_for_member(es.drop_last(), chan, vi);
        let k = choose|k: int|
            0 <= k < es.drop_last().len() && entry_video(#[trigger] es.drop_last()[k]) == Some(
                (chan, init[vi]),
            );
        assert(es[k] == es.drop_last()[k]);
        assert(entry_video(es[k]) == Some((chan, videos_for(es, chan)[vi])));
    } else {
        let k = es.len() - 1;
        assert(entry_video(es[k]) == Some((chan, videos_for(es, chan)[vi])));
    }
}

/// A channel no entry contributes to has no videos.
proof fn lemma_videos_for_absent(es: Seq<EntryView>, chan: Seq<char>)
    requires
        forall|k: int|
            0 <= k < es.len() ==> !(entry_video(#[trigger] es[k]) is Some && entry_video(
                es[k],
            )->Some_0.0 == chan),
    ensures
        videos_for(es, chan) == Seq::<VideoView>::empty(),
    decreases es.len(),
{
    if es.len() > 0 {
        assert forall|k: int| 0 <= k < es.drop_last().len() implies !(entry_video(
            #[trigger] es.drop_last()[k],
        ) is Some && entry_video(es.drop_last()[k])->Some_0.0 == chan) by {
            assert(es.drop_last()[k] == es[k]);
        }
        lemma_videos_for_absent(es.drop_last(), chan);
        assert(!(entry_video(es[es.len() - 1]) is Some && entry_video(
            es[es.len() - 1],
        )->Some_0.0 == chan));
    }
}

/// Law: when the scanned paths are pairwise distinct (each file seen once),
/// no channel gains two videos with the same location.
pub proof fn lemma_videos_for_distinct_locations(es: Seq<EntryView>, chan: Seq<char>)
    requires
        forall|a: int, b: int|
            0 <= a < b < es.len() ==> (#[trigger] es[a]).path != (#[trigger] es[b]).path,
    ensures
        forall|a: int, b: int|
            0 <= a < b < videos_for(es, chan).len() ==> (#[trigger] videos_for(es, chan)[a]).location
                != (#[trigger] videos_for(es, chan)[b]).location,
    decreases es.len(),
{
    if es.len() > 0 {
        assert forall|a: int, b: int|
            0 <= a < b < es.drop_last().len() implies (#[trigger] es.drop_last()[a]).path != (
        #[trigger] es.drop_last()[b]).path by {
            assert(es.drop_last()[a] == es[a]);
            assert(es.drop_last()[b] == es[b]);
        }
        lemma_videos_for_distinct_locations(es.drop_last(), chan);
        let init = videos_for(es.drop_last(), chan);
        let full = videos_for(es, chan);
        if full.len() == init.len() + 1 {
            assert(full[init.len() as int].location == es.last().path);
            assert forall|a: int| 0 <= a < init.len() implies (#[trigger] init[a]).location
                != es.last().path by {
                lemma_videos_for_member(es.drop_last(), chan, a);
                let k = choose|k: int|
                    0 <= k < es.drop_last().len() && entry_video(#[trigger] es.drop_last()[k])
                        == Some((chan, init[a]));
                assert(es.drop_last()[k] == es[k]);
                assert(init[a].location == es[k].path);
                assert(es[k].path != es[es.len() - 1].path);
            }
            assert forall|a: int, b: int| 0 <= a < b < full.len() implies (
            #[trigger] full[a]).location != (#[trigger] full[b]).location by {
                if b < init.len() {
                    assert(full[a] == init[a]);
                    assert(full[b] == init[b]);
                } else {
                    assert(full[a] == init[a]);
                    assert(full[b].location == es.last().path);
                }
            }
        } else {
            assert(full == init);
        }
    }
}

/// The index of the channel with this name, if one exists.
fn find_channel_idx(channels: &Vec<Channel>, name: &str) -> (r: Option<usize>)
    ensures
        match r {
            Some(ci) => ci < channels@.len() && channels@[ci as int]@.name == name@,
            None => forall|j: int|
                0 <= j < channels@.len() ==> (#[trigger] channels@[j])@.name != name@,
        },
{
    let mut i: usize = 0;
    while i < channels.len()
        invariant
            0 <= i <= channels@.len(),
            forall|j: int| 0 <= j < i ==> (#[trigger] channels@[j])@.name != name@,
        decreases channels@.len() - i,
    {
        if str_eq(channels[i].name.as_str(), name) {
            return Some(i);
        }
        i += 1;
    }
    None
}

/// Builds the catalog from a directory listing: each regular file whose name
/// follows the `<channel>__<separator><title>` convention contributes one
/// video to its channel; hidden files, non-files and unattributable names
/// contribute nothing.  Each channel holds exactly the videos its entries
/// contribute, sorted ascending by location; channel names are unique, and a
/// channel exists exactly for the names that gained at least one video.
pub fn list_videos(entries: &Vec<ScanEntry>) -> (r: Data)
    ensures
        unique_names(r@),
        forall|ci: int|
            0 <= ci < r@.len() ==> (#[trigger] r@[ci]).videos.to_multiset() == videos_for(
                entry_views(entries@),
                r@[ci].name,
            ).to_multiset(),
        forall|ci: int| 0 <= ci < r@.len() ==> sorted_by_location((#[trigger] r@[ci]).videos),
        forall|ci: int| 0 <= ci < r@.len() ==> (#[trigger] r@[ci]).videos.len() > 0,
        forall|k: int|
            0 <= k < entries@.len() && entry_video(#[trigger] entry_views(entries@)[k]) is Some
                ==> exists|ci: int|
                0 <= ci < r@.len() && (#[trigger] r@[ci]).name == entry_video(
                    entry_views(entries@)[k],
                )->Some_0.0,
        forall|ci: int, vi: int|
            #![trigger r@[ci].videos[vi]]
            0 <= ci < r@.len() && 0 <= vi < r@[ci].videos.len() ==> exists|k: int|
                0 <= k < entries@.len() && entry_video(#[trigger] entry_views(entries@)[k])
                    == Some((r@[ci].name, r@[ci].videos[vi])),
        (forall|a: int, b: int|
            0 <= a < b < entries@.len() ==> (#[trigger] entry_views(entries@)[a]).path != (
            #[trigger] entry_views(entries@)[b]).path) ==> forall|ci: int, a: int, b: int|
            #![trigger r@[ci].videos[a], r@[ci].videos[b]]
            0 <= ci < r@.len() && 0 <= a < b < r@[ci].videos.len() ==> r@[ci].videos[a].location
                != r@[ci].videos[b].location,
{
    let ghost es = entry_views(entries@);
    let mut d = Data { channels: Vec::new() };
    proof {
        assert(d@ =~= Seq::<crate::data::ChannelView>::empty());
        assert(es.take(0) =~= Seq::<EntryView>::empty());
    }
    let mut idx: usize = 0;
    while idx < entries.len()
        invariant
            0 <= idx <= entries.len(),
            es == entry_views(entries@),
            es.len() == entries@.len(),
            unique_names(d@),
            forall|ci: int|
                0 <= ci < d@.len() ==> (#[trigger] d@[ci]).videos == videos_for(
                    es.take(idx as int),
                    d@[ci].name,
                ),
            forall|ci: int| 0 <= ci < d@.len() ==> (#[trigger] d@[ci]).videos.len() > 0,
            forall|k: int|
                0 <= k < idx && entry_video(#[trigger] es[k]) is Some ==> exists|ci: int|
                    0 <= ci < d@.len() && (#[trigger] d@[ci]).name == entry_video(
                        es[k],
                    )->Some_0.0,
        decreases entries@.len() - idx,
    {
        proof {
            assert(es[idx as int] == entries@[idx as int]@);
        }
        let ghost pre = d@;
        let e = &entries[idx];
        let parsed = if e.is_file {
            parse_filename(e.name.as_str())
        } else {
            None
        };
        proof {
            let t1 = es.take(idx + 1);
            assert(t1.drop_last() =~= es.take(idx as int));
            assert(t1.last() == es[idx as int]);
        }
        match parsed {
            None => {
                proof {
                    assert(entry_video(es[idx as int]) is None);
                    assert forall|ci: int| 0 <= ci < d@.len() implies (#[trigger] d@[ci]).videos
                        == videos_for(es.take(idx + 1), d@[ci].name) by {
                        assert(videos_for(es.take(idx + 1), d@[ci].name) == videos_for(
                            es.take(idx as int),
                            d@[ci].name,
                        ));
                    }
                }
            },
            Some(pair) => {
                let (chan, title) = pair;
                let ghost chanv = chan@;
                let video = Video { title, location: e.path.clone() };
                let ghost vv = video@;
                proof {
                    assert(entry_video(es[idx as int]) == Some((chanv, vv)));
                }
                match find_channel_idx(&d.channels, chan.as_str()) {
                    Some(ci) => {
                        let ghost chv = d@[ci as int];
                        let ghost pre_channels = d.channels@;
                        proof {
                            assert(chv == pre_channels[ci as int]@);
                            assert(chv.name == chanv);
                        }
                        let mut ch = d.channels.remove(ci);
                        ch.videos.push(video);
                        let ghost chv2 = ch@;
                        let ghost chx = ch;
                        proof {
                            assert(chv2.name == chv.name);
                            assert(chv2.videos =~= chv.videos.push(vv));
                        }
                        d.channels.insert(ci, ch);
                        proof {
                            let cur = d.channels@;
                            assert(cur == pre_channels.remove(ci as int).insert(
                                ci as int,
                                chx,
                            ));
                            assert(cur.len() == pre.len());
                            assert forall|j: int| 0 <= j < pre.len() implies (#[trigger] d@[j])
                                == pre.update(ci as int, chv2)[j] by {
                                assert(d@[j] == cur[j]@);
                                if j == ci {
                                    assert(cur[j] == chx);
                                } else {
                                    assert(cur[j] == pre_channels[j]);
                                    assert(pre[j] == pre_channels[j]@);
                                }
                            }
                            assert(d@ =~= pre.update(ci as int, chv2));
                            assert forall|cj: int| 0 <= cj < d@.len() implies (
                            #[trigger] d@[cj]).videos == videos_for(
                                es.take(idx + 1),
                                d@[cj].name,
                            ) by {
                                if cj == ci {
                                    assert(d@[cj] == chv2);
                                    assert(chv.videos == videos_for(
                                        es.take(idx as int),
                                        chv.name,
                                    ));
                                    assert(videos_for(es.take(idx + 1), chv.name)
                                        == videos_for(es.take(idx as int), chv.name).push(vv));
                                } else {
                                    assert(d@[cj] == pre[cj]);
                                    assert(pre[cj].name != chv.name);
                                    assert(videos_for(es.take(idx + 1), pre[cj].name)
                                        == videos_for(es.take(idx as int), pre[cj].name));
                                }
                            }
                            assert forall|k: int|
                                0 <= k < idx + 1 && entry_video(#[trigger] es[k]) is Some
                                    implies exists|cj: int|
                                0 <= cj < d@.len() && (#[trigger] d@[cj]).name == entry_video(
                                    es[k],
                                )->Some_0.0 by {
                                if k < idx {
                                    let w = choose|w: int|
                                        0 <= w < pre.len() && (#[trigger] pre[w]).name
                                            == entry_video(es[k])->Some_0.0;
                                    assert(d@[w].name == entry_video(es[k])->Some_0.0);
                                } else {
                                    assert(d@[ci as int].name == chanv);
                                }
                            }
                        }
                    },
                    None => {
                        let mut videos: Vec<Video> = Vec::new();
                        videos.push(video);
                        let nc = Channel { name: chan, videos };
                        let ghost ncv = nc@;
                        proof {
                            assert(ncv.name == chanv);
                            assert(ncv.videos =~= Seq::<VideoView>::empty().push(vv));
                            assert forall|k: int|
                                0 <= k < es.take(idx as int).len() implies !(entry_video(
                                #[trigger] es.take(idx as int)[k],
                            ) is Some && entry_video(es.take(idx as int)[k])->Some_0.0
                                == ncv.name) by {
                                assert(es.take(idx as int)[k] == es[k]);
                                if entry_video(es[k]) is Some && entry_video(es[k])->Some_0.0
                                    == ncv.name {
                                    let wci = choose|wci: int|
                                        0 <= wci < pre.len() && (#[trigger] pre[wci]).name
                                            == entry_video(es[k])->Some_0.0;
                                    assert(false);
                                }
                            }
                            lemma_videos_for_absent(es.take(idx as int), ncv.name);
                        }
                        let ghost pre_channels = d.channels@;
                        let ghost ncx = nc;
                        d.channels.push(nc);
                        proof {
                            assert(d.channels@ == pre_channels.push(ncx));
                            assert(d@ =~= pre.push(ncv));
                            assert forall|cj: int| 0 <= cj < d@.len() implies (
                            #[trigger] d@[cj]).videos == videos_for(
                                es.take(idx + 1),
                                d@[cj].name,
                            ) by {
                                if cj < pre.len() {
                                    assert(d@[cj] == pre[cj]);
                                    assert(pre[cj].name != ncv.name);
                                    assert(videos_for(es.take(idx + 1), pre[cj].name)
                                        == videos_for(es.take(idx as int), pre[cj].name));
                                } else {
                                    assert(d@[cj] == ncv);
                                    assert(videos_for(es.take(idx + 1), ncv.name)
                                        == videos_for(es.take(idx as int), ncv.name).push(vv));
                                    assert(videos_for(es.take(idx as int), ncv.name)
                                        == Seq::<VideoView>::empty());
                                }
                            }
                            assert forall|a: int, b: int| 0 <= a < b < d@.len() implies (
                            #[trigger] d@[a]).name != (#[trigger] d@[b]).name by {
                                if b == pre.len() {
                                    assert(d@[a] == pre[a]);
                                    assert(pre[a].name != ncv.name);
                                }
                            }
                            assert forall|k: int|
                                0 <= k < idx + 1 && entry_video(#[trigger] es[k]) is Some
                                    implies exists|cj: int|
                                0 <= cj < d@.len() && (#[trigger] d@[cj]).name == entry_video(
                                    es[k],
                                )->Some_0.0 by {
                                if k < idx {
                                    let w = choose|w: int|
                                        0 <= w < pre.len() && (#[trigger] pre[w]).name
                                            == entry_video(es[k])->Some_0.0;
                                    assert(d@[w].name == entry_video(es[k])->Some_0.0);
                                } else {
                                    assert(d@[pre.len() as int].name == chanv);
                                }
                            }
                        }
                    },
                }
            },
        }
        idx += 1;
    }
    let ghost dpre = d@;
    proof {
        assert(es.take(entries@.len() as int) =~= es);
    }
    d.sort_videos();
    proof {
        broadcast use vstd::seq_lib::group_to_multiset_ensures;

        assert forall|ci: int| 0 <= ci < d@.len() implies (#[trigger] d@[ci]).videos.to_multiset()
            == videos_for(es, d@[ci].name).to_multiset() by {
            assert(d@[ci].name == dpre[ci].name);
            assert(d@[ci].videos.to_multiset() == dpre[ci].videos.to_multiset());
            assert(dpre[ci].videos == videos_for(es, dpre[ci].name));
        }
        assert forall|ci: int| 0 <= ci < d@.len() implies (#[trigger] d@[ci]).videos.len()
            > 0 by {
            assert(d@[ci].videos.to_multiset().len() == d@[ci].videos.len());
            assert(dpre[ci].videos.to_multiset().len() == dpre[ci].videos.len());
            assert(dpre[ci].videos.len() > 0);
        }
        assert forall|a: int, b: int| 0 <= a < b < d@.len() implies (#[trigger] d@[a]).name != (
        #[trigger] d@[b]).name by {
            assert(d@[a].name == dpre[a].name);
            assert(d@[b].name == dpre[b].name);
        }
        assert forall|k: int|
            0 <= k < entries@.len() && entry_video(#[trigger] entry_views(entries@)[k]) is Some
                implies exists|ci: int|
            0 <= ci < d@.len() && (#[trigger] d@[ci]).name == entry_video(
                entry_views(entries@)[k],
            )->Some_0.0 by {
            let w = choose|w: int|
                0 <= w < dpre.len() && (#[trigger] dpre[w]).name == entry_video(
                    es[k],
                )->Some_0.0;
            assert(d@[w].name == entry_video(es[k])->Some_0.0);
        }
        assert forall|ci: int, vi: int|
            #![trigger d@[ci].videos[vi]]
            0 <= ci < d@.len() && 0 <= vi < d@[ci].videos.len() implies exists|k: int|
                0 <= k < entries@.len() && entry_video(#[trigger] entry_views(entries@)[k])
                    == Some((d@[ci].name, d@[ci].videos[vi])) by {
            let v = d@[ci].videos[vi];
            assert(d@[ci].videos.contains(v));
            assert(d@[ci].videos.to_multiset().count(v) > 0);
            assert(dpre[ci].videos.to_multiset().count(v) > 0);
            assert(dpre[ci].videos.contains(v));
            let wvi = choose|wvi: int|
                0 <= wvi < dpre[ci].videos.len() && dpre[ci].videos[wvi] == v;
            lemma_videos_for_member(es, dpre[ci].name, wvi);
            assert(dpre[ci].videos == videos_for(es, dpre[ci].name));
        }
        if forall|a: int, b: int|
            0 <= a < b < es.len() ==> (#[trigger] es[a]).path != (#[trigger] es[b]).path {
            assert forall|ci: int, a: int, b: int|
                #![trigger d@[ci].videos[a], d@[ci].videos[b]]
                0 <= ci < d@.len() && 0 <= a < b < d@[ci].videos.len() implies d@[
                ci].videos[a].location != d@[ci].videos[b].location by {
                let name = dpre[ci].name;
                let vf = videos_for(es, name);
                lemma_videos_for_distinct_locations(es, name);
                assert(vf.no_duplicates()) by {
                    assert forall|x: int, y: int|
                        0 <= x < vf.len() && 0 <= y < vf.len() && x != y implies vf[x]
                        != vf[y] by {
                        if x < y {
                            assert(vf[x].location != vf[y].location);
                        } else {
                            assert(vf[y].location != vf[x].location);
                        }
                    }
                }
                vf.lemma_multiset_has_no_duplicates();
                let fv = d@[ci].videos;
                assert(fv.to_multiset() == vf.to_multiset());
                fv.lemma_multiset_has_no_duplicates_conv();
                if fv[a].location == fv[b].location {
                    let va = fv[a];
                    let vb = fv[b];
                    assert(fv.contains(va));
                    assert(fv.contains(vb));
                    assert(vf.contains(va));
                    assert(vf.contains(vb));
                    let ia = choose|ia: int| 0 <= ia < vf.len() && vf[ia] == va;
                    let ib = choose|ib: int| 0 <= ib < vf.len() && vf[ib] == vb;
                    if va != vb {
                        assert(vf[ia].location != vf[ib].location);
                        assert(false);
                    }
                    assert(fv.no_duplicates());
                    assert(false);
                }
            }
        }
    }
    d
}

/// The position of the last `/` in a path, if any.
pub open spec fn last_slash(s: Seq<char>) -> Option<int>
    decreases s.len(),
{
    if s.len() == 0 {
        None
    } else if s[s.len() - 1] == '/' {
        Some(s.len() - 1)
    } else {
        last_slash(s.drop_last())
    }
}

/// Where a watched video's file moves: the `watched` subdirectory of the
/// file's parent directory, keeping the filename.  A location without a `/`
/// has no parent directory, and no destination.
pub open spec fn spec_watched_destination(loc: Seq<char>) -> Option<Seq<char>> {
    match last_slash(loc) {
        None => None,
        Some(i) => Some(
            loc.subrange(0, i + 1) + "watched/"@ + loc.subrange(i + 1, loc.len() as int),
        ),
    }
}

/// A `/` at `k`, with none after it, is the last slash.
proof fn lemma_last_slash_at(s: Seq<char>, k: int)
    requires
        0 <= k < s.len(),
        s[k] == '/',
        forall|j: int| k < j < s.len() ==> s[j] != '/',
    ensures
        last_slash(s) == Some(k),
    decreases s.len(),
{
    if k < s.len() - 1 {
        assert(s.drop_last()[k] == s[k]);
        lemma_last_slash_at(s.drop_last(), k);
    }
}

/// With no `/` anywhere, there is no last slash.
proof fn lemma_last_slash_none(s: Seq<char>)
    requires
        forall|j: int| 0 <= j < s.len() ==> s[j] != '/',
    ensures
        last_slash(s) is None,
    decreases s.len(),
{
    if s.len() > 0 {
        lemma_last_slash_none(s.drop_last());
    }
}

/// Computes the path a video's file moves to when marked watched: the
/// `watched` subdirectory beside the file, keeping the filename.  `None`
/// when the location holds no `/` and so names no parent directory.
pub fn watched_destination(location: &str) -> (r: Option<String>)
    ensures
        match r {
            Some(d) => spec_watched_destination(location@) == Some(d@),
            None => spec_watched_destination(location@) is None,
        },
{
    let len: usize = location.unicode_len();
    let mut i: usize = len;
    while i > 0
        invariant
            0 <= i <= len,
            len == location@.len(),
            forall|j: int| i <= j < len ==> location@[j] != '/',
        decreases i,
    {
        let c = location.get_char(i - 1);
        if c == '/' {
            proof {
                lemma_last_slash_at(location@, i - 1);
            }
            let parent = location.substring_char(0, i);
            let file = location.substring_char(i, len);
            let mut out = parent.to_owned();
            out.append("watched/");
            out.append(file);
            proof {
                assert(out@ == location@.subrange(0, i as int) + "watched/"@
                    + location@.subrange(i as int, len as int));
            }
            return Some(out);
        }
        i -= 1;
    }
    proof {
        lemma_last_slash_none(location@);
    }
    None
}

} // verus!
