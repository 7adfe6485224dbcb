//! Magnet links.

use vstd::prelude::*;
use vstd::string::StringExecFns;
use crate::bencode::elem::{lemma_list_view, values_of, BencodeElem};
use crate::bencode::entries::lookup;
use crate::bencode::model::Value;
use crate::error::{Failure, LavaTorrentError};
use crate::escape::{encode_component, magnet_component};
use crate::text::{ascii_chars, hex_text, join_texts, joined, texts_of};
use crate::torrent::v1::{info_hash_of, Torrent, TorrentView};
use crate::torrent::v1::read::then;

verus! {

/// The parameter that names `url` as a tracker.
pub open spec fn tracker_part(url: Seq<char>) -> Seq<char> {
    "&tr="@ + magnet_component(url)
}

/// The parameter that names `url` as a web seed.
pub open spec fn seed_part(url: Seq<char>) -> Seq<char> {
    "&ws="@ + magnet_component(url)
}

/// The tracker parameters of one tier, in one text.
pub open spec fn tier_text(urls: Seq<Seq<char>>) -> Seq<char> {
    joined(Seq::new(urls.len(), |i: int| tracker_part(urls[i])), Seq::empty())
}

/// The tracker parameters of a torrent: one for every URL of every tier, in
/// order, where there are tiers, and else one for the tracker, if there is
/// one.
pub open spec fn trackers_text(t: TorrentView) -> Seq<char> {
    match t.announce_list {
        Some(tiers) => joined(Seq::new(tiers.len(), |i: int| tier_text(tiers[i])), Seq::empty()),
        None => match t.announce {
            Some(url) => tracker_part(url),
            None => Seq::empty(),
        },
    }
}

/// The URLs that `items` hold, or the reason why one of them is none.
pub open spec fn seeds_from(items: Seq<Value>) -> Result<Seq<Seq<char>>, Seq<char>>
    decreases items.len(),
{
    if items.len() == 0 {
        Ok(Seq::empty())
    } else {
        match items[0] {
            Value::Text(url) => then(seq![url], seeds_from(items.drop_first())),
            _ => Err("\"url-list\" is a list but contains a non-string element."@),
        }
    }
}

/// The web seeds of a torrent: what `url-list` names among the extra fields,
/// as one text or as a list of texts.
pub open spec fn web_seeds(t: TorrentView) -> Result<Seq<Seq<char>>, Seq<char>> {
    match t.extra_fields {
        Some(fields) => match lookup(fields, "url-list"@) {
            Some(Value::Text(seed)) => Ok(seq![seed]),
            Some(Value::List(items)) => seeds_from(items),
            Some(_) => Err("\"url-list\" is neither a string nor a list."@),
            None => Ok(Seq::empty()),
        },
        None => Ok(Seq::empty()),
    }
}

/// The web seed parameters for `seeds`, in one text.
pub open spec fn seeds_text(seeds: Seq<Seq<char>>) -> Seq<char> {
    joined(Seq::new(seeds.len(), |i: int| seed_part(seeds[i])), Seq::empty())
}

/// The magnet link of a torrent, or the reason why it has none.
pub open spec fn magnet_of(t: TorrentView) -> Result<Seq<char>, Seq<char>> {
    match web_seeds(t) {
        Err(e) => Err(e),
        Ok(seeds) => Ok(
            "magnet:?xt=urn:btih:"@ + ascii_chars(hex_text(info_hash_of(t))) + "&dn="@ + t.name
                + trackers_text(t) + seeds_text(seeds),
        ),
    }
}

/// The tracker parameters of one tier, in one text.
fn tier_parameters(urls: &Vec<String>) -> (res: String)
    ensures
        res@ == tier_text(texts_of(urls@)),
{
    let mut parts: Vec<String> = Vec::new();
    let mut i: usize = 0;
    while i < urls.len()
        invariant
            i <= urls.len(),
            parts.len() == i,
            forall|j: int| 0 <= j < i ==> (#[trigger] parts[j])@ == tracker_part(urls[j]@),
        decreases urls.len() - i,
    {
        let mut part = "&tr=".to_owned();
        part.append(encode_component(urls[i].as_str()).as_str());
        parts.push(part);
        i += 1;
    }
    assert(texts_of(parts@) =~= Seq::new(
        urls@.len(),
        |i: int| tracker_part(texts_of(urls@)[i]),
    ));
    proof {
        reveal_strlit("");
        assert(""@ =~= Seq::<char>::empty());
    }
    join_texts(&parts, "")
}

/// The web seed parameters for `seeds`, in one text.
fn seed_parameters(seeds: &Vec<String>) -> (res: String)
    ensures
        res@ == seeds_text(texts_of(seeds@)),
{
    let mut parts: Vec<String> = Vec::new();
    let mut i: usize = 0;
    while i < seeds.len()
        invariant
            i <= seeds.len(),
            parts.len() == i,
            forall|j: int| 0 <= j < i ==> (#[trigger] parts[j])@ == seed_part(seeds[j]@),
        decreases seeds.len() - i,
    {
        let mut part = "&ws=".to_owned();
        part.append(encode_component(seeds[i].as_str()).as_str());
        parts.push(part);
        i += 1;
    }
    assert(texts_of(parts@) =~= Seq::new(
        seeds@.len(),
        |i: int| seed_part(texts_of(seeds@)[i]),
    ));
    proof {
        reveal_strlit("");
        assert(""@ =~= Seq::<char>::empty());
    }
    join_texts(&parts, "")
}

impl Torrent {
    /// The tracker parameters of the torrent.
    fn tracker_parameters(&self) -> (res: String)
        ensures
            res@ == trackers_text(self@),
    {
        match &self.announce_list {
            Some(tiers) => {
                let mut parts: Vec<String> = Vec::new();
                let mut i: usize = 0;
                while i < tiers.len()
                    invariant
                        i <= tiers.len(),
                        parts.len() == i,
                        forall|j: int|
                            0 <= j < i ==> (#[trigger] parts[j])@ == tier_text(
                                texts_of(tiers[j]@),
                            ),
                    decreases tiers.len() - i,
                {
                    parts.push(tier_parameters(&tiers[i]));
                    i += 1;
                }
                assert(texts_of(parts@) =~= Seq::new(
                    tiers@.len(),
                    |i: int| tier_text(self@.announce_list->0[i]),
                ));
                let res = join_texts(&parts, "");
                proof {
                    reveal_strlit("");
                    assert(""@ =~= Seq::<char>::empty());
                }
                res
            },
            None => match &self.announce {
                Some(url) => {
                    let mut part = "&tr=".to_owned();
                    part.append(encode_component(url.as_str()).as_str());
                    part
                },
                None => String::new(),
            },
        }
    }

    /// The URLs of the web seeds of the torrent.
    fn seed_urls(&self) -> (res: Result<Vec<String>, LavaTorrentError>)
        ensures
            match web_seeds(self@) {
                Ok(seeds) => res matches Ok(urls) && texts_of(urls@) == seeds,
                Err(reason) => res matches Err(e) && e@ == Failure::MalformedTorrent(reason),
            },
    {
        let mut urls: Vec<String> = Vec::new();
        assert(texts_of(urls@) =~= Seq::<Seq<char>>::empty());
        let fields = match &self.extra_fields {
            Some(fields) => fields,
            None => {
                return Ok(urls);
            },
        };
        match fields.get("url-list") {
            Some(BencodeElem::String(seed)) => {
                urls.push(seed.clone());
                assert(texts_of(urls@) =~= seq![seed@]);
                Ok(urls)
            },
            Some(BencodeElem::List(seeds)) => {
                let ghost all = values_of(seeds@);
                proof {
                    lemma_list_view(*seeds);
                    assert(all.skip(0) =~= all);
                }
                let mut i: usize = 0;
                while i < seeds.len()
                    invariant
                        i <= seeds.len(),
                        all == values_of(seeds@),
                        web_seeds(self@) == seeds_from(all),
                        seeds_from(all) == then(texts_of(urls@), seeds_from(all.skip(i as int))),
                    decreases seeds.len() - i,
                {
                    proof {
                        assert(all.skip(i as int).drop_first() =~= all.skip(i + 1));
                        if let Value::Text(text) = all[i as int] {
                            if let Ok(rest) = seeds_from(all.skip(i + 1)) {
                                assert(texts_of(urls@) + (seq![text] + rest) =~= texts_of(
                                    urls@,
                                ).push(text) + rest);
                            }
                        }
                    }
                    let ghost before = urls@;
                    match &seeds[i] {
                        BencodeElem::String(url) => {
                            urls.push(url.clone());
                            assert(texts_of(urls@) =~= texts_of(before).push(url@));
                        },
                        _ => {
                            return Err(
                                LavaTorrentError::malformed_torrent(
                                    "\"url-list\" is a list but contains a non-string element.",
                                ),
                            );
                        },
                    }
                    i += 1;
                }
                proof {
                    assert(all.skip(all.len() as int) =~= Seq::<Value>::empty());
                    assert(texts_of(urls@) + Seq::<Seq<char>>::empty() =~= texts_of(urls@));
                }
                Ok(urls)
            },
            Some(_) => Err(
                LavaTorrentError::malformed_torrent("\"url-list\" is neither a string nor a list."),
            ),
            None => Ok(urls),
        }
    }

    /// The magnet link of the torrent.
    ///
    /// It names the info hash, the name as it is, the trackers and the web
    /// seeds. Where there are tiers of trackers, the single tracker is left
    /// out. The web seeds are what `url-list` names among the extra fields.
    pub fn magnet_link(&self) -> (res: Result<String, LavaTorrentError>)
        ensures
            match magnet_of(self@) {
                Ok(link) => res matches Ok(l) && l@ == link,
                Err(reason) => res matches Err(e) && e@ == Failure::MalformedTorrent(reason),
            },
    {
        let trackers = self.tracker_parameters();
        let seeds = match self.seed_urls() {
            Ok(urls) => seed_parameters(&urls),
            Err(e) => {
                return Err(e);
            },
        };
        let mut link = "magnet:?xt=urn:btih:".to_owned();
        link.append(self.info_hash().as_str());
        link.append("&dn=");
        link.append(self.name.as_str());
        link.append(trackers.as_str());
        link.append(seeds.as_str());
        Ok(link)
    }
}

} // verus!
