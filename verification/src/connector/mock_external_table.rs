//! An external table that is made up.
use vstd::prelude::*;

verus! {

/// A place in the log of a database.
#[derive(Debug)]
pub struct MySqlOffset {
    pub filename: String,
    pub position: u64,
}

/// A place as plain values.
pub struct LogPlace {
    pub filename: Seq<char>,
    pub position: u64,
}

impl View for MySqlOffset {
    type V = LogPlace;

    open spec fn view(&self) -> LogPlace {
        LogPlace { filename: self.filename@, position: self.position }
    }
}

/// A place in the log of some database.
#[derive(Debug)]
pub enum CdcOffset {
    MySql(MySqlOffset),
}

/// How the places in the log of a database are written.
#[derive(Clone, Copy, Debug, PartialEq, Eq, Structural)]
pub enum CdcOffsetParser {
    MySql,
}

impl CdcOffsetParser {
    /// The place that was read, if it could be read.
    pub fn parsed(&self, offset: Option<MySqlOffset>) -> (res: Option<CdcOffset>)
        ensures
            res == (match offset {
                Some(place) => Some(CdcOffset::MySql(place)),
                None => None,
            }),
    {
        match offset {
            Some(place) => Some(CdcOffset::MySql(place)),
            None => None,
        }
    }
}

/// A row of the table: a number, and a second number in ten-thousandths.
#[derive(Clone, Copy, Debug, PartialEq, Eq, Structural)]
pub struct SnapshotRow {
    pub id: i64,
    pub ten_thousandths: i64,
}

/// Reads the table.
#[derive(Debug)]
pub struct MockExternalTableReader {
    pub binlog_watermarks: Vec<MySqlOffset>,
    /// How often the table was read.
    pub snapshot_cnt: usize,
}

/// The rows of the table.
pub open spec fn snapshot_rows() -> Seq<SnapshotRow> {
    seq![
        SnapshotRow { id: 1, ten_thousandths: 10_001 },
        SnapshotRow { id: 1, ten_thousandths: 110_000 },
        SnapshotRow { id: 2, ten_thousandths: 220_000 },
        SnapshotRow { id: 5, ten_thousandths: 10_005 },
        SnapshotRow { id: 6, ten_thousandths: 10_006 },
        SnapshotRow { id: 8, ten_thousandths: 10_008 },
    ]
}

impl MockExternalTableReader {
    /// A reader that has not read the table yet.
    pub fn new(binlog_watermarks: Vec<MySqlOffset>) -> (res: MockExternalTableReader)
        ensures
            res.binlog_watermarks == binlog_watermarks,
            res.snapshot_cnt == 0,
    {
        MockExternalTableReader { binlog_watermarks, snapshot_cnt: 0 }
    }

    /// The name of the table, whatever it is called.
    pub fn get_normalized_table_name(_table_name: &str) -> (res: String)
        ensures
            res@ == "`mock_table`"@,
    {
        "`mock_table`".to_owned()
    }

    /// How places in the log are written.
    pub fn get_cdc_offset_parser() -> (res: CdcOffsetParser)
        ensures
            res == CdcOffsetParser::MySql,
    {
        CdcOffsetParser::MySql
    }

    /// Reads the table: the first time all rows come at once, and after that none.
    pub fn snapshot_read(&mut self) -> (res: Vec<SnapshotRow>)
        ensures
            res@ == (if old(self).snapshot_cnt == 0 {
                snapshot_rows()
            } else {
                Seq::empty()
            }),
            final(self).snapshot_cnt == (if old(self).snapshot_cnt == usize::MAX {
                0int
            } else {
                old(self).snapshot_cnt + 1
            }),
            final(self).binlog_watermarks == old(self).binlog_watermarks,
    {
        let snap_idx: usize = self.snapshot_cnt;
        self.snapshot_cnt = if snap_idx == usize::MAX {
            0
        } else {
            snap_idx + 1
        };
        let mut res: Vec<SnapshotRow> = Vec::new();
        if snap_idx == 0 {
            res.push(SnapshotRow { id: 1, ten_thousandths: 10_001 });
            res.push(SnapshotRow { id: 1, ten_thousandths: 110_000 });
            res.push(SnapshotRow { id: 2, ten_thousandths: 220_000 });
            res.push(SnapshotRow { id: 5, ten_thousandths: 10_005 });
            res.push(SnapshotRow { id: 6, ten_thousandths: 10_006 });
            res.push(SnapshotRow { id: 8, ten_thousandths: 10_008 });
            assert(res@ =~= snapshot_rows());
        }
        res
    }

    /// The place in the log at the given call: the watermarks one after the other, and then the end of the
    /// log.
    pub fn current_cdc_offset(&self, idx: usize) -> (res: CdcOffset)
        ensures
            match res {
                CdcOffset::MySql(place) => place@ == (if idx < self.binlog_watermarks@.len() {
                    self.binlog_watermarks@[idx as int]@
                } else {
                    LogPlace { filename: "1.binlog"@, position: u64::MAX }
                }),
            },
    {
        if idx < self.binlog_watermarks.len() {
            let watermark = &self.binlog_watermarks[idx];
            CdcOffset::MySql(
                MySqlOffset {
                    filename: watermark.filename.clone(),
                    position: watermark.position,
                },
            )
        } else {
            CdcOffset::MySql(
                MySqlOffset { filename: "1.binlog".to_owned(), position: u64::MAX },
            )
        }
    }
}

} // verus!
