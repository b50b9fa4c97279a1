use vstd::prelude::*;
use vstd::string::*;
use vstd::utf8::{decode_utf8, valid_utf8};
use crate::num::{decimal_text, is_digit, lemma_decimal_text, push_decimal};
use crate::text::str_from_utf8;

verus! {

/// The term and vote that a node must keep across restarts.
pub struct RaftMetadata {
    pub current_term: u64,
    pub voted_for: Option<u64>,
}

/// Where a node keeps its term, vote and log.
pub struct RaftStorage {
    metadata_path: String,
    log_path: String,
}

/// The decimal text of `n` as characters.
fn decimal_string(n: u64) -> (r: String)
    ensures
        valid_utf8(decimal_text(n as nat)),
        r@ == decode_utf8(decimal_text(n as nat)),
{
    let mut digits: Vec<u8> = Vec::new();
    push_decimal(n, &mut digits);
    assert(digits@ =~= decimal_text(n as nat));
    proof {
        lemma_decimal_text(n as nat);
        let t = decimal_text(n as nat);
        assert(t.subrange(0, 0) =~= Seq::<u8>::empty());
        assert(vstd::utf8::partial_valid_utf8(t, 0));
        assert forall|i: int| 0 <= 0 <= i < t.len() <= t.len() implies #[trigger] vstd::utf8::is_leading_byte_width_1(
            t[i],
        ) by {
            assert(is_digit(t[i]));
        }
        vstd::utf8::partial_valid_utf8_extend_ascii_block(t, 0, t.len() as int);
        assert(t.subrange(0, t.len() as int) =~= t);
    }
    match str_from_utf8(digits.as_slice()) {
        Some(s) => s.to_owned(),
        None => String::new(),
    }
}

impl RaftStorage {
    /// The files of node `node_id`: `node_<id>_metadata.json` for the term and
    /// vote, `node_<id>_raft.log` for the log.
    pub fn new(node_id: u64) -> (r: RaftStorage)
        ensures
            r.metadata_path_spec() == "node_"@ + decode_utf8(decimal_text(node_id as nat))
                + "_metadata.json"@,
            r.log_path_spec() == "node_"@ + decode_utf8(decimal_text(node_id as nat))
                + "_raft.log"@,
    {
        let id = decimal_string(node_id);
        let mut metadata_path = "node_".to_owned();
        metadata_path.append(id.as_str());
        metadata_path.append("_metadata.json");
        let mut log_path = "node_".to_owned();
        log_path.append(id.as_str());
        log_path.append("_raft.log");
        RaftStorage { metadata_path, log_path }
    }

    pub closed spec fn metadata_path_spec(&self) -> Seq<char> {
        self.metadata_path@
    }

    pub closed spec fn log_path_spec(&self) -> Seq<char> {
        self.log_path@
    }

    /// The file of the term and vote.
    pub fn metadata_path(&self) -> (r: &str)
        ensures
            r@ == self.metadata_path_spec(),
    {
        self.metadata_path.as_str()
    }

    /// The file of the log.
    pub fn log_path(&self) -> (r: &str)
        ensures
            r@ == self.log_path_spec(),
    {
        self.log_path.as_str()
    }
}

} // verus!
