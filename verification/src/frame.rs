use vstd::prelude::*;

verus! {

/// A RESP value as it travels between client, server and the append-only file.
#[derive(Debug, PartialEq)]
pub enum Frame {
    /// `+OK\r\n`
    Simple(String),
    /// `-Error message\r\n`
    Error(String),
    /// `:1000\r\n`
    Integer(i64),
    /// `$6\r\nfoobar\r\n`
    Bulk(Vec<u8>),
    /// `$-1\r\n`, the null bulk string
    Null,
    /// `*2\r\n$3\r\nfoo\r\n$3\r\nbar\r\n`
    Array(Vec<Frame>),
}

/// The mathematical value of a frame.
pub enum FrameModel {
    Simple(Seq<char>),
    Error(Seq<char>),
    Integer(int),
    Bulk(Seq<u8>),
    Null,
    Array(Seq<FrameModel>),
}

impl View for Frame {
    type V = FrameModel;

    open spec fn view(&self) -> FrameModel
        decreases self,
    {
        match self {
            Frame::Simple(s) => FrameModel::Simple(s@),
            Frame::Error(s) => FrameModel::Error(s@),
            Frame::Integer(n) => FrameModel::Integer(*n as int),
            Frame::Bulk(b) => FrameModel::Bulk(b@),
            Frame::Null => FrameModel::Null,
            Frame::Array(items) => FrameModel::Array(
                Seq::new(
                    items.len() as nat,
                    |i: int|
                        if 0 <= i < items.len() {
                            items[i].view()
                        } else {
                            FrameModel::Null
                        },
                ),
            ),
        }
    }
}

} // verus!
