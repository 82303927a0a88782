use vstd::prelude::*;
use vstd::string::StringExecFns;
use crate::utils::{int_chars_of, decimal_string_i64};

verus! {

/// What a `.torrent` file announces: the tracker, the payload length, the
/// nominal piece length, the hex-spelled info hash and the hex-spelled
/// per-piece SHA-1 digests. Fields are filled one by one while a file is
/// read, so each is optional until set.
pub struct Metainfo {
    tracker_url: Option<String>,
    length: Option<i64>,
    hash: Option<String>,
    piece_length: Option<i64>,
    piece_hashes: Option<Vec<String>>,
}

/// The text a string field shows: its value, or a placeholder while unset.
pub open spec fn opt_string_chars(o: Option<String>) -> Seq<char> {
    match o {
        Some(s) => s@,
        None => "N/A"@,
    }
}

/// The text a numeric field shows: its decimal value, or a placeholder.
pub open spec fn opt_i64_chars(o: Option<i64>) -> Seq<char> {
    match o {
        Some(n) => int_chars_of(n as int),
        None => "N/A"@,
    }
}

/// Hash lines joined by line breaks, one hash per line.
pub open spec fn joined_lines(hs: Seq<Seq<char>>) -> Seq<char>
    decreases hs.len(),
{
    if hs.len() == 0 {
        Seq::empty()
    } else if hs.len() == 1 {
        hs[0]
    } else {
        hs[0] + "\n"@ + joined_lines(hs.drop_first())
    }
}

pub open spec fn piece_hashes_chars(o: Option<Vec<String>>) -> Seq<char> {
    match o {
        Some(hs) => joined_lines(Seq::new(hs@.len(), |i: int| hs@[i]@)),
        None => "N/A"@,
    }
}

impl Metainfo {
    pub closed spec fn view_tracker_url(&self) -> Option<String> {
        self.tracker_url
    }

    pub closed spec fn view_length(&self) -> Option<i64> {
        self.length
    }

    pub closed spec fn view_hash(&self) -> Option<String> {
        self.hash
    }

    pub closed spec fn view_piece_length(&self) -> Option<i64> {
        self.piece_length
    }

    pub closed spec fn view_piece_hashes(&self) -> Option<Vec<String>> {
        self.piece_hashes
    }

    /// The record every field of which is still unset.
    pub fn new() -> (r: Self)
        ensures
            r.view_tracker_url() is None,
            r.view_length() is None,
            r.view_hash() is None,
            r.view_piece_length() is None,
            r.view_piece_hashes() is None,
    {
        Metainfo {
            tracker_url: None,
            length: None,
            hash: None,
            piece_length: None,
            piece_hashes: None,
        }
    }

    pub fn set_tracker_url(&mut self, url: String)
        ensures
            final(self).view_tracker_url() == Some(url),
            final(self).view_length() == old(self).view_length(),
            final(self).view_hash() == old(self).view_hash(),
            final(self).view_piece_length() == old(self).view_piece_length(),
            final(self).view_piece_hashes() == old(self).view_piece_hashes(),
    {
        self.tracker_url = Some(url);
    }

    pub fn get_tracker_url(&self) -> (r: &Option<String>)
        ensures
            *r == self.view_tracker_url(),
    {
        &self.tracker_url
    }

    pub fn set_length(&mut self, length: i64)
        ensures
            final(self).view_length() == Some(length),
            final(self).view_tracker_url() == old(self).view_tracker_url(),
            final(self).view_hash() == old(self).view_hash(),
            final(self).view_piece_length() == old(self).view_piece_length(),
            final(self).view_piece_hashes() == old(self).view_piece_hashes(),
    {
        self.length = Some(length);
    }

    pub fn get_length(&self) -> (r: &Option<i64>)
        ensures
            *r == self.view_length(),
    {
        &self.length
    }

    pub fn set_hash(&mut self, hash: String)
        ensures
            final(self).view_hash() == Some(hash),
            final(self).view_tracker_url() == old(self).view_tracker_url(),
            final(self).view_length() == old(self).view_length(),
            final(self).view_piece_length() == old(self).view_piece_length(),
            final(self).view_piece_hashes() == old(self).view_piece_hashes(),
    {
        self.hash = Some(hash);
    }

    pub fn get_hash(&self) -> (r: &Option<String>)
        ensures
            *r == self.view_hash(),
    {
        &self.hash
    }

    pub fn set_piece_length(&mut self, piece_length: i64)
        ensures
            final(self).view_piece_length() == Some(piece_length),
            final(self).view_tracker_url() == old(self).view_tracker_url(),
            final(self).view_length() == old(self).view_length(),
            final(self).view_hash() == old(self).view_hash(),
            final(self).view_piece_hashes() == old(self).view_piece_hashes(),
    {
        self.piece_length = Some(piece_length);
    }

    pub fn get_piece_length(&self) -> (r: &Option<i64>)
        ensures
            *r == self.view_piece_length(),
    {
        &self.piece_length
    }

    pub fn set_piece_hashes(&mut self, piece_hashes: Vec<String>)
        ensures
            final(self).view_piece_hashes() == Some(piece_hashes),
            final(self).view_tracker_url() == old(self).view_tracker_url(),
            final(self).view_length() == old(self).view_length(),
            final(self).view_hash() == old(self).view_hash(),
            final(self).view_piece_length() == old(self).view_piece_length(),
    {
        self.piece_hashes = Some(piece_hashes);
    }

    pub fn get_piece_hashes(&self) -> (r: &Option<Vec<String>>)
        ensures
            *r == self.view_piece_hashes(),
    {
        &self.piece_hashes
    }

    /// The fields laid out one per line, unset fields shown as `N/A`.
    pub fn get_formatted_info(&self) -> (r: String)
        ensures
            r@ == "Tracker URL: "@ + opt_string_chars(self.view_tracker_url()) + "\nLength: "@
                + opt_i64_chars(self.view_length()) + "\nInfo Hash: "@ + opt_string_chars(
                self.view_hash(),
            ) + "\nPiece Length: "@ + opt_i64_chars(self.view_piece_length())
                + "\nPiece Hashes:\n"@ + piece_hashes_chars(self.view_piece_hashes()) + "\n"@,
    {
        let mut out = String::new();
        out.append("Tracker URL: ");
        match &self.tracker_url {
            Some(u) => out.append(u.as_str()),
            None => out.append("N/A"),
        }
        out.append("\nLength: ");
        match &self.length {
            Some(n) => {
                let d = decimal_string_i64(*n);
                out.append(d.as_str());
            },
            None => out.append("N/A"),
        }
        out.append("\nInfo Hash: ");
        match &self.hash {
            Some(h) => out.append(h.as_str()),
            None => out.append("N/A"),
        }
        out.append("\nPiece Length: ");
        match &self.piece_length {
            Some(n) => {
                let d = decimal_string_i64(*n);
                out.append(d.as_str());
            },
            None => out.append("N/A"),
        }
        out.append("\nPiece Hashes:\n");
        match &self.piece_hashes {
            Some(hs) => {
                let ghost lines = Seq::new(hs@.len(), |i: int| hs@[i]@);
                let mut i: usize = 0;
                while i < hs.len()
                    invariant
                        0 <= i <= hs@.len(),
                        lines == Seq::new(hs@.len(), |k: int| hs@[k]@),
                        out@ == "Tracker URL: "@ + opt_string_chars(self.view_tracker_url())
                            + "\nLength: "@ + opt_i64_chars(self.view_length()) + "\nInfo Hash: "@
                            + opt_string_chars(self.view_hash()) + "\nPiece Length: "@
                            + opt_i64_chars(self.view_piece_length()) + "\nPiece Hashes:\n"@
                            + joined_prefix(lines, i as int),
                    decreases hs@.len() - i,
                {
                    if i > 0 {
                        out.append("\n");
                    }
                    out.append(hs[i].as_str());
                    proof {
                        lemma_joined_prefix_step(lines, i as int);
                        assert(out@ == "Tracker URL: "@ + opt_string_chars(self.view_tracker_url())
                            + "\nLength: "@ + opt_i64_chars(self.view_length()) + "\nInfo Hash: "@
                            + opt_string_chars(self.view_hash()) + "\nPiece Length: "@
                            + opt_i64_chars(self.view_piece_length()) + "\nPiece Hashes:\n"@
                            + joined_prefix(lines, i + 1));
                    }
                    i = i + 1;
                }
                proof {
                    lemma_joined_prefix_full(lines);
                }
            },
            None => out.append("N/A"),
        }
        out.append("\n");
        out
    }
}

/// The first `i` hash lines, joined by line breaks.
pub open spec fn joined_prefix(hs: Seq<Seq<char>>, i: int) -> Seq<char>
    decreases i,
{
    if i <= 0 {
        Seq::empty()
    } else if i == 1 {
        hs[0]
    } else {
        joined_prefix(hs, i - 1) + "\n"@ + hs[i - 1]
    }
}

proof fn lemma_joined_prefix_step(hs: Seq<Seq<char>>, i: int)
    requires
        0 <= i,
    ensures
        i == 0 ==> joined_prefix(hs, 1) == joined_prefix(hs, 0) + hs[0],
        i > 0 ==> joined_prefix(hs, i + 1) == joined_prefix(hs, i) + "\n"@ + hs[i],
{
    if i == 0 {
        assert(joined_prefix(hs, 0) + hs[0] =~= hs[0]);
    }
}

proof fn lemma_joined_prefix_full(hs: Seq<Seq<char>>)
    ensures
        joined_prefix(hs, hs.len() as int) == joined_lines(hs),
    decreases hs.len(),
{
    let n = hs.len() as int;
    if n == 0 {
    } else if n == 1 {
    } else {
        lemma_joined_prefix_full(hs.drop_first());
        lemma_joined_prefix_drop(hs, n);
        assert(joined_lines(hs) == hs[0] + "\n"@ + joined_lines(hs.drop_first()));
    }
}

/// Joining a prefix commutes with dropping the first line.
proof fn lemma_joined_prefix_drop(hs: Seq<Seq<char>>, i: int)
    requires
        2 <= i <= hs.len(),
    ensures
        joined_prefix(hs, i) == hs[0] + "\n"@ + joined_prefix(hs.drop_first(), i - 1),
    decreases i,
{
    if i == 2 {
        assert(hs.drop_first()[0] == hs[1]);
        assert(joined_prefix(hs, 2) == joined_prefix(hs, 1) + "\n"@ + hs[1]);
        assert(hs[0] + "\n"@ + hs[1] =~= hs[0] + "\n"@ + joined_prefix(hs.drop_first(), 1));
    } else {
        lemma_joined_prefix_drop(hs, i - 1);
        assert(hs.drop_first()[i - 2] == hs[i - 1]);
        assert((hs[0] + "\n"@ + joined_prefix(hs.drop_first(), i - 2)) + "\n"@ + hs[i - 1] =~= hs[0]
            + "\n"@ + (joined_prefix(hs.drop_first(), i - 2) + "\n"@ + hs.drop_first()[i - 2]));
    }
}

} // verus!
