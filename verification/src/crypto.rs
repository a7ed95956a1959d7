//! Time series of digital currencies: the decoded answer of the service,
//! the typed records made of it, and the request that asks for them.

use vstd::prelude::*;
use vstd::seq_lib::*;
use vstd::string::*;

use crate::error::{detect_common_helper_error, sentinel, Error};
use crate::text::{
    lemma_newest_first, lemma_precedes_connected, lemma_precedes_irreflexive,
    lemma_precedes_transitive, newest_first, precedes, sort_newest_first, str_before, str_eq,
    texts,
};
use crate::vec_trait::FindData;

verus! {

/// What the service says about a series.
pub struct MetaData {
    pub information: String,
    pub digital_code: String,
    pub digital_name: String,
    pub market_code: String,
    pub market_name: String,
    pub last_refreshed: String,
    pub time_zone: String,
}

impl Default for MetaData {
    fn default() -> (r: Self)
        ensures
            r.information@.len() == 0,
            r.digital_code@.len() == 0,
            r.digital_name@.len() == 0,
            r.market_code@.len() == 0,
            r.market_name@.len() == 0,
            r.last_refreshed@.len() == 0,
            r.time_zone@.len() == 0,
    {
        MetaData {
            information: String::new(),
            digital_code: String::new(),
            digital_name: String::new(),
            market_code: String::new(),
            market_name: String::new(),
            last_refreshed: String::new(),
            time_zone: String::new(),
        }
    }
}

impl Clone for MetaData {
    fn clone(&self) -> (r: Self)
        ensures
            r == *self,
    {
        MetaData {
            information: self.information.clone(),
            digital_code: self.digital_code.clone(),
            digital_name: self.digital_name.clone(),
            market_code: self.market_code.clone(),
            market_name: self.market_name.clone(),
            last_refreshed: self.last_refreshed.clone(),
            time_zone: self.time_zone.clone(),
        }
    }
}

/// A record as contracts speak of it: its time as text, and each of its five
/// numbers as the 64 bits of the double-precision number.
pub struct DataView {
    pub time: Seq<char>,
    pub open: u64,
    pub high: u64,
    pub low: u64,
    pub close: u64,
    pub volume: u64,
}

/// The record without a time, whose numbers are all zero.
pub open spec fn blank() -> DataView {
    DataView { time: Seq::empty(), open: 0, high: 0, low: 0, close: 0, volume: 0 }
}

/// One sample of a series. The time is the key by which records are found
/// and ordered. Each number is held as the 64 bits of its double-precision
/// representation, and only carried.
#[derive(Debug)]
pub struct Data {
    time: String,
    open: u64,
    high: u64,
    low: u64,
    close: u64,
    volume: u64,
}

impl View for Data {
    type V = DataView;

    closed spec fn view(&self) -> DataView {
        DataView {
            time: self.time@,
            open: self.open,
            high: self.high,
            low: self.low,
            close: self.close,
            volume: self.volume,
        }
    }
}

impl Default for Data {
    fn default() -> (r: Self)
        ensures
            r@ == blank(),
    {
        Data { time: String::new(), open: 0, high: 0, low: 0, close: 0, volume: 0 }
    }
}

impl Clone for Data {
    fn clone(&self) -> (r: Self)
        ensures
            r == *self,
    {
        Data {
            time: self.time.clone(),
            open: self.open,
            high: self.high,
            low: self.low,
            close: self.close,
            volume: self.volume,
        }
    }
}

impl Data {
    /// Return time
    #[must_use]
    pub fn time(&self) -> (r: &str)
        ensures
            r@ == self@.time,
    {
        self.time.as_str()
    }

    /// Return the bits of the open value
    #[must_use]
    pub fn open(&self) -> (r: u64)
        ensures
            r == self@.open,
    {
        self.open
    }

    /// Return the bits of the high value
    #[must_use]
    pub fn high(&self) -> (r: u64)
        ensures
            r == self@.high,
    {
        self.high
    }

    /// Return the bits of the low value
    #[must_use]
    pub fn low(&self) -> (r: u64)
        ensures
            r == self@.low,
    {
        self.low
    }

    /// Return the bits of the close value
    #[must_use]
    pub fn close(&self) -> (r: u64)
        ensures
            r == self@.close,
    {
        self.close
    }

    /// Return the bits of the volume
    #[must_use]
    pub fn volume(&self) -> (r: u64)
        ensures
            r == self@.volume,
    {
        self.volume
    }
}

/// The records of a collection as contracts speak of them.
pub open spec fn views(records: Seq<Data>) -> Seq<DataView> {
    records.map_values(|d: Data| d@)
}

/// The times of the records of a collection, in its order.
pub open spec fn times(records: Seq<Data>) -> Seq<Seq<char>> {
    records.map_values(|d: Data| d@.time)
}

/// The five numbers of one sample as they were decoded: the bits of each
/// number, or nothing where its text was not a number.
pub struct DataHelper {
    pub open: Option<u64>,
    pub high: Option<u64>,
    pub low: Option<u64>,
    pub close: Option<u64>,
    pub volume: Option<u64>,
}

/// The series as it was decoded: groups in the order in which they were
/// read, each with its name and its samples, each sample with its time. The
/// name of a group has no meaning for the records.
pub type Series = Vec<(String, Vec<(String, DataHelper)>)>;

/// Whether every number of a sample was decoded.
pub open spec fn decoded(fields: DataHelper) -> bool {
    &&& fields.open is Some
    &&& fields.high is Some
    &&& fields.low is Some
    &&& fields.close is Some
    &&& fields.volume is Some
}

/// Whether every number of every sample of a series was decoded.
pub open spec fn all_decoded(groups: Seq<(String, Vec<(String, DataHelper)>)>) -> bool {
    forall|g: int, e: int|
        0 <= g < groups.len() && 0 <= e < groups[g].1@.len() ==> decoded(
            (#[trigger] groups[g].1@[e]).1,
        )
}

/// The record that a sample becomes: its time, and its numbers as decoded.
pub open spec fn record_of(sample: (String, DataHelper)) -> DataView {
    DataView {
        time: sample.0@,
        open: sample.1.open->0,
        high: sample.1.high->0,
        low: sample.1.low->0,
        close: sample.1.close->0,
        volume: sample.1.volume->0,
    }
}

/// The records of one group, in the order of its samples.
pub open spec fn records_of(samples: Seq<(String, DataHelper)>) -> Seq<DataView> {
    samples.map_values(|s: (String, DataHelper)| record_of(s))
}

/// The records of a series: those of its first group, then those of the
/// next, and so on to the last.
pub open spec fn flattened(groups: Seq<(String, Vec<(String, DataHelper)>)>) -> Seq<DataView> {
    groups.map_values(|g: (String, Vec<(String, DataHelper)>)| records_of(g.1@)).flatten()
}

/// Struct which holds Crypto currency information
pub struct Crypto {
    meta_data: MetaData,
    data: Vec<Data>,
}

impl Default for Crypto {
    fn default() -> (r: Self)
        ensures
            r.records().len() == 0,
            r.meta().information@.len() == 0,
            r.meta().digital_code@.len() == 0,
            r.meta().digital_name@.len() == 0,
            r.meta().market_code@.len() == 0,
            r.meta().market_name@.len() == 0,
            r.meta().last_refreshed@.len() == 0,
            r.meta().time_zone@.len() == 0,
    {
        Crypto { meta_data: MetaData::default(), data: Vec::new() }
    }
}

/// The answer of the service as it was decoded, before it is known whether
/// it holds data or a message.
pub struct CryptoHelper {
    pub information: Option<String>,
    pub error_message: Option<String>,
    pub note: Option<String>,
    pub meta_data: Option<MetaData>,
    pub data: Option<Series>,
}

impl CryptoHelper {
    /// Turns the decoded answer into the typed series, or into the failure
    /// that it stands for. A message of the service is looked for first, in
    /// the order information, error message, note. Without a message, the
    /// meta data and the series must both be there. Only then is the series
    /// read: every number of it must have been decoded, and the records
    /// are those of the groups one after the other.
    #[verifier::loop_isolation(false)]
    pub fn convert(self) -> (r: Result<Crypto, Error>)
        ensures
            sentinel(self.information, self.error_message, self.note) is Some ==> r == Err::<
                Crypto,
                Error,
            >(sentinel(self.information, self.error_message, self.note)->0),
            sentinel(self.information, self.error_message, self.note) is None && (self.meta_data
                is None || self.data is None) ==> r == Err::<Crypto, Error>(Error::EmptyResponse),
            sentinel(self.information, self.error_message, self.note) is None && self.meta_data
                is Some && self.data is Some && !all_decoded(self.data->0@) ==> r == Err::<
                Crypto,
                Error,
            >(Error::DecodeJsonToStruct),
            sentinel(self.information, self.error_message, self.note) is None && self.meta_data
                is Some && self.data is Some && all_decoded(self.data->0@) ==> {
                &&& r is Ok
                &&& r->Ok_0.meta() == self.meta_data->0
                &&& views(r->Ok_0.records()) == flattened(self.data->0@)
            },
    {
        match detect_common_helper_error(self.information, self.error_message, self.note) {
            Err(e) => {
                return Err(e);
            },
            Ok(_) => {},
        }
        let (meta_data, groups) = match (self.meta_data, self.data) {
            (Some(meta_data), Some(groups)) => (meta_data, groups),
            _ => {
                return Err(Error::EmptyResponse);
            },
        };
        let ghost per_group = groups@.map_values(
            |g: (String, Vec<(String, DataHelper)>)| records_of(g.1@),
        );
        let mut vec_data: Vec<Data> = Vec::new();
        let mut g: usize = 0;
        assert(per_group.take(0) =~= Seq::<Seq<DataView>>::empty());
        while g < groups.len()
            invariant
                g <= groups.len(),
                per_group == groups@.map_values(
                    |g: (String, Vec<(String, DataHelper)>)| records_of(g.1@),
                ),
                views(vec_data@) == per_group.take(g as int).flatten(),
                forall|a: int, e: int|
                    0 <= a < g && 0 <= e < groups@[a].1@.len() ==> decoded(
                        (#[trigger] groups@[a].1@[e]).1,
                    ),
            decreases groups.len() - g,
        {
            let samples = &groups[g].1;
            let ghost before = views(vec_data@);
            let mut e: usize = 0;
            assert(before + records_of(samples@).take(0) =~= before);
            while e < samples.len()
                invariant
                    e <= samples.len(),
                    views(vec_data@) == before + records_of(samples@).take(e as int),
                    forall|k: int| 0 <= k < e ==> decoded((#[trigger] samples@[k]).1),
                decreases samples.len() - e,
            {
                let sample = &samples[e];
                let data = match (
                    sample.1.open,
                    sample.1.high,
                    sample.1.low,
                    sample.1.close,
                    sample.1.volume,
                ) {
                    (Some(open), Some(high), Some(low), Some(close), Some(volume)) => Data {
                        time: sample.0.clone(),
                        open,
                        high,
                        low,
                        close,
                        volume,
                    },
                    _ => {
                        assert(!decoded(groups@[g as int].1@[e as int].1));
                        assert(!all_decoded(groups@));
                        return Err(Error::DecodeJsonToStruct);
                    },
                };
                assert(data@ == record_of(samples@[e as int]));
                assert(views(vec_data@.push(data)) =~= views(vec_data@).push(data@));
                assert(records_of(samples@).take(e + 1) =~= records_of(samples@).take(
                    e as int,
                ).push(record_of(samples@[e as int])));
                vec_data.push(data);
                e += 1;
            }
            proof {
                assert(records_of(samples@).take(e as int) =~= records_of(samples@));
                assert(per_group.take(g + 1) =~= per_group.take(g as int).push(
                    records_of(samples@),
                ));
                per_group.take(g as int).lemma_flatten_push(records_of(samples@));
            }
            g += 1;
        }
        assert(per_group.take(g as int) =~= per_group);
        Ok(Crypto { data: vec_data, meta_data })
    }
}

impl Crypto {
    /// The meta data of the series.
    pub closed spec fn meta(&self) -> MetaData {
        self.meta_data
    }

    /// The records of the series, in the order in which they are held.
    pub closed spec fn records(&self) -> Seq<Data> {
        self.data@
    }

    /// The meta string that goes by a name, and the empty text for a name
    /// that no meta string goes by.
    pub open spec fn meta_text(&self, which_val: Seq<char>) -> Seq<char> {
        if which_val == "information"@ {
            self.meta().information@
        } else if which_val == "digital code"@ {
            self.meta().digital_code@
        } else if which_val == "digital name"@ {
            self.meta().digital_name@
        } else if which_val == "market code"@ {
            self.meta().market_code@
        } else if which_val == "market name"@ {
            self.meta().market_name@
        } else if which_val == "time zone"@ {
            self.meta().time_zone@
        } else if which_val == "last refreshed"@ {
            self.meta().last_refreshed@
        } else {
            Seq::empty()
        }
    }

    /// Return meta data information
    #[must_use]
    pub fn information(&self) -> (r: &str)
        ensures
            r@ == self.meta().information@,
    {
        self.return_meta_string("information")
    }

    /// Return digital currency code
    #[must_use]
    pub fn digital_code(&self) -> (r: &str)
        ensures
            r@ == self.meta().digital_code@,
    {
        proof {
            lemma_names_differ();
        }
        self.return_meta_string("digital code")
    }

    /// Return digital currency name
    #[must_use]
    pub fn digital_name(&self) -> (r: &str)
        ensures
            r@ == self.meta().digital_name@,
    {
        proof {
            lemma_names_differ();
        }
        self.return_meta_string("digital name")
    }

    /// Return market code
    #[must_use]
    pub fn market_code(&self) -> (r: &str)
        ensures
            r@ == self.meta().market_code@,
    {
        proof {
            lemma_names_differ();
        }
        self.return_meta_string("market code")
    }

    /// Return market name
    #[must_use]
    pub fn market_name(&self) -> (r: &str)
        ensures
            r@ == self.meta().market_name@,
    {
        proof {
            lemma_names_differ();
        }
        self.return_meta_string("market name")
    }

    /// Return last refreshed time
    #[must_use]
    pub fn last_refreshed(&self) -> (r: &str)
        ensures
            r@ == self.meta().last_refreshed@,
    {
        proof {
            lemma_names_differ();
        }
        self.return_meta_string("last refreshed")
    }

    /// Return time zone of all data time
    #[must_use]
    pub fn time_zone(&self) -> (r: &str)
        ensures
            r@ == self.meta().time_zone@,
    {
        proof {
            lemma_names_differ();
        }
        self.return_meta_string("time zone")
    }

    /// Return a data
    #[must_use]
    pub fn data(&self) -> (r: &Vec<Data>)
        ensures
            r@ == self.records(),
    {
        &self.data
    }

    /// Return meta string
    fn return_meta_string(&self, which_val: &str) -> (r: &str)
        ensures
            r@ == self.meta_text(which_val@),
    {
        if str_eq(which_val, "information") {
            self.meta_data.information.as_str()
        } else if str_eq(which_val, "digital code") {
            self.meta_data.digital_code.as_str()
        } else if str_eq(which_val, "digital name") {
            self.meta_data.digital_name.as_str()
        } else if str_eq(which_val, "market code") {
            self.meta_data.market_code.as_str()
        } else if str_eq(which_val, "market name") {
            self.meta_data.market_name.as_str()
        } else if str_eq(which_val, "time zone") {
            self.meta_data.time_zone.as_str()
        } else if str_eq(which_val, "last refreshed") {
            self.meta_data.last_refreshed.as_str()
        } else {
            proof {
                reveal_strlit("");
            }
            ""
        }
    }
}

/// The names by which the meta strings go are seven different texts.
proof fn lemma_names_differ()
    ensures
        "information"@.len() == 11,
        "digital code"@.len() == 12,
        "digital name"@.len() == 12,
        "market code"@.len() == 11,
        "market name"@.len() == 11,
        "time zone"@.len() == 9,
        "last refreshed"@.len() == 14,
        "information"@[0] == 'i',
        "market code"@[0] == 'm',
        "market name"@[0] == 'm',
        "digital code"@[8] == 'c',
        "digital name"@[8] == 'n',
        "market code"@[7] == 'c',
        "market name"@[7] == 'n',
{
    reveal_strlit("information");
    reveal_strlit("digital code");
    reveal_strlit("digital name");
    reveal_strlit("market code");
    reveal_strlit("market name");
    reveal_strlit("time zone");
    reveal_strlit("last refreshed");
}

/// The times of the samples of a series: those of its first group, then
/// those of the next, and so on to the last.
pub open spec fn sample_times(groups: Seq<(String, Vec<(String, DataHelper)>)>) -> Seq<
    Seq<char>,
> {
    groups.map_values(
        |g: (String, Vec<(String, DataHelper)>)| g.1@.map_values(|s: (String, DataHelper)| s.0@),
    ).flatten()
}

/// The records of a series keep the times of its samples, in their order.
/// So where no time occurs twice in the series, no two of the records share
/// a time.
pub proof fn lemma_records_keep_times(
    groups: Seq<(String, Vec<(String, DataHelper)>)>,
    records: Seq<Data>,
)
    requires
        views(records) == flattened(groups),
    ensures
        times(records) == sample_times(groups),
        sample_times(groups).no_duplicates() ==> times(records).no_duplicates(),
{
    lemma_flattened_times(groups);
    assert(times(records) =~= views(records).map_values(|v: DataView| v.time));
}

proof fn lemma_flattened_times(groups: Seq<(String, Vec<(String, DataHelper)>)>)
    ensures
        flattened(groups).map_values(|v: DataView| v.time) == sample_times(groups),
    decreases groups.len(),
{
    let per_group = groups.map_values(
        |g: (String, Vec<(String, DataHelper)>)| records_of(g.1@),
    );
    let per_group_times = groups.map_values(
        |g: (String, Vec<(String, DataHelper)>)| g.1@.map_values(|s: (String, DataHelper)| s.0@),
    );
    if groups.len() == 0 {
        assert(flattened(groups).map_values(|v: DataView| v.time) =~= sample_times(groups));
    } else {
        let rest = groups.drop_first();
        lemma_flattened_times(rest);
        assert(per_group.drop_first() =~= rest.map_values(
            |g: (String, Vec<(String, DataHelper)>)| records_of(g.1@),
        ));
        assert(per_group_times.drop_first() =~= rest.map_values(
            |g: (String, Vec<(String, DataHelper)>)|
                g.1@.map_values(|s: (String, DataHelper)| s.0@),
        ));
        assert(per_group[0].map_values(|v: DataView| v.time) =~= per_group_times[0]);
        assert(flattened(groups).map_values(|v: DataView| v.time) =~= per_group[0].map_values(
            |v: DataView| v.time,
        ) + flattened(rest).map_values(|v: DataView| v.time));
    }
}

/// The records of a series of one group are those of the group: as many as
/// it has samples, each with the time and the numbers of its sample, in
/// the order of the samples.
pub proof fn lemma_single_group(group: (String, Vec<(String, DataHelper)>))
    ensures
        flattened(seq![group]) == records_of(group.1@),
        flattened(seq![group]).len() == group.1@.len(),
        forall|e: int|
            0 <= e < group.1@.len() ==> (#[trigger] flattened(seq![group])[e]) == record_of(
                group.1@[e],
            ),
{
    let per_group = seq![group].map_values(
        |g: (String, Vec<(String, DataHelper)>)| records_of(g.1@),
    );
    per_group.lemma_flatten_one_element();
    assert(per_group.first() == records_of(group.1@));
}

/// Whether the record at `i` is the latest of a collection: no record has a
/// later time, and every record before it has an earlier one.
pub open spec fn is_latest_at(records: Seq<Data>, i: int) -> bool {
    &&& 0 <= i < records.len()
    &&& forall|j: int|
        0 <= j < records.len() ==> !precedes(records[i]@.time, #[trigger] records[j]@.time)
    &&& forall|j: int| 0 <= j < i ==> precedes(#[trigger] records[j]@.time, records[i]@.time)
}

/// The record at place `k` among the latest: the first record of the
/// collection whose time is the one at place `k` when the times are arranged
/// from the latest to the earliest.
pub open spec fn kth_latest(records: Seq<Data>, k: int) -> Data {
    records[times(records).index_of_first(newest_first(times(records))[k])->0]
}

/// What asking a collection for its `n` latest records gives: the records
/// at the places from 0 up to `n` among the latest; a failure with the
/// number of records where there are fewer than `n`.
pub open spec fn latest_n_of(records: Seq<Data>, n: usize) -> Result<Seq<Data>, Error> {
    if n > records.len() {
        Err(Error::DesiredNumberOfDataNotPresent(records.len() as usize))
    } else {
        Ok(Seq::new(n as nat, |k: int| kth_latest(records, k)))
    }
}

/// A list of borrowed records, or the failure in its place, as the records
/// themselves.
pub open spec fn borrowed(r: Result<Vec<&Data>, Error>) -> Result<Seq<Data>, Error> {
    match r {
        Ok(list) => Ok(list@.map_values(|d: &Data| *d)),
        Err(e) => Err(e),
    }
}

impl FindData for Vec<Data> {
    type Item = Data;

    /// The first record whose time is `time`, and nothing where no record
    /// has that time.
    fn find(&self, time: &str) -> (r: Option<&Data>)
        ensures
            r is Some <==> times(self@).contains(time@),
            match times(self@).index_of_first(time@) {
                Some(i) => r == Some(&self@[i]),
                None => r is None,
            },
    {
        let ghost all = times(self@);
        let mut i: usize = 0;
        while i < self.len()
            invariant
                i <= self.len(),
                all == times(self@),
                forall|k: int| 0 <= k < i ==> all[k] != time@,
            decreases self.len() - i,
        {
            if str_eq(self[i].time.as_str(), time) {
                proof {
                    assert(all[i as int] == time@);
                    all.index_of_first_ensures(time@);
                }
                return Some(&self[i]);
            }
            i += 1;
        }
        proof {
            all.index_of_first_ensures(time@);
        }
        None
    }

    /// The record with the latest time, the first such if several share
    /// it; of a collection without records, the record without a time whose
    /// numbers are zero.
    fn latest(&self) -> (r: Data)
        ensures
            self@.len() == 0 ==> r@ == blank(),
            self@.len() > 0 ==> exists|i: int| is_latest_at(self@, i) && r == self@[i],
    {
        if self.len() == 0 {
            return Data::default();
        }
        let mut best: usize = 0;
        let mut i: usize = 1;
        proof {
            lemma_precedes_irreflexive(self@[0]@.time);
        }
        while i < self.len()
            invariant
                best < i <= self.len(),
                forall|j: int|
                    0 <= j < i ==> !precedes(
                        self@[best as int]@.time,
                        #[trigger] self@[j]@.time,
                    ),
                forall|j: int|
                    0 <= j < best ==> precedes(
                        #[trigger] self@[j]@.time,
                        self@[best as int]@.time,
                    ),
            decreases self.len() - i,
        {
            if str_before(self[best].time.as_str(), self[i].time.as_str()) {
                proof {
                    let old_t = self@[best as int]@.time;
                    let new_t = self@[i as int]@.time;
                    lemma_precedes_irreflexive(new_t);
                    assert forall|j: int| 0 <= j < i implies precedes(
                        #[trigger] self@[j]@.time,
                        new_t,
                    ) && !precedes(new_t, self@[j]@.time) by {
                        let t = self@[j]@.time;
                        lemma_precedes_connected(t, old_t);
                        if precedes(t, old_t) {
                            lemma_precedes_transitive(t, old_t, new_t);
                        }
                        if precedes(new_t, t) {
                            lemma_precedes_transitive(t, new_t, t);
                            lemma_precedes_irreflexive(t);
                        }
                    }
                }
                best = i;
            }
            i += 1;
        }
        assert(is_latest_at(self@, best as int));
        self[best].clone()
    }

    /// The `n` records of the latest times, from the latest on; fails where
    /// the collection holds fewer than `n` records, and says how many it
    /// holds.
    fn latest_n(&self, n: usize) -> (r: Result<Vec<&Data>, Error>)
        ensures
            borrowed(r) == latest_n_of(self@, n),
    {
        let mut time_list: Vec<&String> = Vec::new();
        let mut i: usize = 0;
        while i < self.len()
            invariant
                i <= self.len(),
                texts(time_list@) == times(self@).take(i as int),
            decreases self.len() - i,
        {
            proof {
                let key = &self@[i as int].time;
                assert(key@ == times(self@)[i as int]);
                assert(texts(time_list@.push(key)) =~= texts(time_list@).push(key@));
                assert(times(self@).take(i + 1) =~= times(self@).take(i as int).push(key@));
            }
            time_list.push(&self[i].time);
            i += 1;
        }
        assert(times(self@).take(i as int) =~= times(self@));
        let time_list = sort_newest_first(&time_list);
        proof {
            lemma_newest_first(times(self@));
        }
        if n > time_list.len() {
            return Err(Error::DesiredNumberOfDataNotPresent(time_list.len()));
        }
        let ghost wanted = Seq::new(n as nat, |k: int| kth_latest(self@, k));
        let mut full_list: Vec<&Data> = Vec::new();
        let mut k: usize = 0;
        while k < n
            invariant
                k <= n <= self.len(),
                time_list@.len() == self@.len(),
                texts(time_list@) == newest_first(times(self@)),
                forall|m: int|
                    0 <= m < self@.len() ==> times(self@).contains(
                        #[trigger] newest_first(times(self@))[m],
                    ),
                full_list@.len() == k,
                forall|m: int|
                    0 <= m < k ==> *(#[trigger] full_list@[m]) == kth_latest(self@, m),
            decreases n - k,
        {
            let time = time_list[k];
            proof {
                assert(time@ == texts(time_list@)[k as int]);
                times(self@).index_of_first_ensures(time@);
            }
            let found = self.find(time.as_str());
            full_list.push(found.unwrap());
            k += 1;
        }
        assert(full_list@.map_values(|d: &Data| *d) =~= wanted);
        Ok(full_list)
    }
}

/// Asking an unchanged collection twice for its `n` latest records gives the
/// same both times: the same records in the same order, or the same
/// failure.
pub proof fn lemma_latest_n_repeatable(
    records: Seq<Data>,
    n: usize,
    first: Result<Vec<&Data>, Error>,
    second: Result<Vec<&Data>, Error>,
)
    requires
        borrowed(first) == latest_n_of(records, n),
        borrowed(second) == latest_n_of(records, n),
    ensures
        borrowed(first) == borrowed(second),
        first is Ok ==> second is Ok && first->Ok_0@ == second->Ok_0@,
        first is Err ==> second is Err && first->Err_0 == second->Err_0,
{
    if first is Ok {
        let a = first->Ok_0@;
        let b = second->Ok_0@;
        assert(a.len() == b.len()) by {
            assert(a.map_values(|d: &Data| *d).len() == b.map_values(|d: &Data| *d).len());
        }
        assert forall|k: int| 0 <= k < a.len() implies a[k] == b[k] by {
            assert(a.map_values(|d: &Data| *d)[k] == b.map_values(|d: &Data| *d)[k]);
        }
        assert(a =~= b);
    }
}

/// No more than the collection holds can be asked for, and every smaller
/// number is served: the failure comes exactly where `n` is larger than the
/// number of records, and holds that number.
pub proof fn lemma_latest_n_boundary(records: Seq<Data>, n: usize)
    ensures
        latest_n_of(records, n) is Ok <==> n <= records.len(),
        latest_n_of(records, n) is Ok ==> latest_n_of(records, n)->Ok_0.len() == n,
        latest_n_of(records, n) is Err ==> latest_n_of(records, n)->Err_0
            == Error::DesiredNumberOfDataNotPresent(records.len() as usize),
        latest_n_of(records, 0) == Ok::<Seq<Data>, Error>(Seq::empty()),
{
    assert(Seq::new(0nat, |k: int| kth_latest(records, k)) =~= Seq::<Data>::empty());
}

/// Each of the latest records is a record of the collection, namely the
/// first one of its time, and they stand from the latest to the earliest:
/// none has an earlier time than one that stands after it.
pub proof fn lemma_latest_n_descending(records: Seq<Data>)
    ensures
        forall|k: int|
            0 <= k < records.len() ==> {
                let i = times(records).index_of_first(
                    (#[trigger] kth_latest(records, k))@.time,
                );
                &&& i is Some
                &&& 0 <= i->0 < records.len()
                &&& kth_latest(records, k) == records[i->0]
                &&& kth_latest(records, k)@.time == newest_first(times(records))[k]
            },
        forall|i: int, j: int|
            0 <= i < j < records.len() ==> !precedes(
                (#[trigger] kth_latest(records, i))@.time,
                (#[trigger] kth_latest(records, j))@.time,
            ),
{
    let sorted = newest_first(times(records));
    lemma_newest_first(times(records));
    assert forall|k: int| 0 <= k < records.len() implies {
        let i = times(records).index_of_first((#[trigger] kth_latest(records, k))@.time);
        &&& i is Some
        &&& 0 <= i->0 < records.len()
        &&& kth_latest(records, k) == records[i->0]
        &&& kth_latest(records, k)@.time == sorted[k]
    } by {
        times(records).index_of_first_ensures(sorted[k]);
    }
    assert forall|i: int, j: int| 0 <= i < j < records.len() implies !precedes(
        (#[trigger] kth_latest(records, i))@.time,
        (#[trigger] kth_latest(records, j))@.time,
    ) by {
        assert(!precedes(sorted[i], sorted[j]));
    }
}

/// Where no two records share a time, each of the latest records is
/// strictly later than the one that stands after it, so that no record is
/// given twice.
pub proof fn lemma_latest_n_distinct(records: Seq<Data>, i: int, j: int)
    requires
        times(records).no_duplicates(),
        0 <= i < j < records.len(),
    ensures
        precedes(kth_latest(records, j)@.time, kth_latest(records, i)@.time),
        kth_latest(records, i) != kth_latest(records, j),
{
    let sorted = newest_first(times(records));
    lemma_newest_first(times(records));
    lemma_latest_n_descending(records);
    assert(kth_latest(records, i)@.time == sorted[i]);
    assert(kth_latest(records, j)@.time == sorted[j]);
    times(records).lemma_multiset_has_no_duplicates();
    sorted.lemma_multiset_has_no_duplicates_conv();
    assert(sorted[i] != sorted[j]);
    lemma_precedes_connected(sorted[i], sorted[j]);
    lemma_precedes_irreflexive(sorted[i]);
}

/// At most one record is the latest of a collection.
pub proof fn lemma_latest_unique(records: Seq<Data>, i: int, j: int)
    requires
        is_latest_at(records, i),
        is_latest_at(records, j),
    ensures
        i == j,
{
    if i < j {
        assert(precedes(records[i]@.time, records[j]@.time));
        assert(!precedes(records[i]@.time, records[j]@.time));
    } else if j < i {
        assert(precedes(records[j]@.time, records[i]@.time));
        assert(!precedes(records[j]@.time, records[i]@.time));
    }
}

/// The latest record of a collection is the first of its latest records.
pub proof fn lemma_latest_is_first_of_latest_n(records: Seq<Data>, i: int)
    requires
        is_latest_at(records, i),
    ensures
        kth_latest(records, 0) == records[i],
{
    broadcast use group_to_multiset_ensures;

    let all = times(records);
    let sorted = newest_first(all);
    let t = all[i];
    lemma_newest_first(all);
    assert(all.contains(t));
    assert(all.to_multiset().count(t) > 0);
    assert(sorted.to_multiset().count(t) > 0);
    assert(sorted.contains(t));
    let m = choose|m: int| 0 <= m < sorted.len() && sorted[m] == t;
    assert(all.contains(sorted[0]));
    let j = choose|j: int| 0 <= j < all.len() && all[j] == sorted[0];
    assert(!precedes(t, records[j]@.time));
    if m > 0 {
        assert(!precedes(sorted[0], sorted[m]));
    } else {
        lemma_precedes_irreflexive(t);
    }
    lemma_precedes_connected(sorted[0], t);
    assert(sorted[0] == t);
    all.index_of_first_ensures(t);
    let first = all.index_of_first(t)->0;
    if first < i {
        assert(precedes(records[first]@.time, t));
        lemma_precedes_irreflexive(t);
    }
}

/// Enum for declaring function for crypto series by defining which type of
/// crypto series to be returned
pub enum CryptoFunction {
    /// returns the daily historical time series for a digital currency (e.g.,
    /// BTC) traded on a specific market (e.g., CNY/Chinese Yuan), refreshed
    /// daily at midnight (UTC). Prices and volumes are quoted in both the
    /// market-specific currency and USD.
    Daily,
    /// returns the weekly historical time series for a digital currency (e.g.,
    /// BTC) traded on a specific market (e.g., CNY/Chinese Yuan), refreshed
    /// daily at midnight (UTC). Prices and volumes are quoted in both the
    /// market-specific currency and USD.
    Weekly,
    /// returns the monthly historical time series for a digital currency (e.g.,
    /// BTC) traded on a specific market (e.g., CNY/Chinese Yuan), refreshed
    /// daily at midnight (UTC). Prices and volumes are quoted in both the
    /// market-specific currency and USD.
    Monthly,
}

impl Clone for CryptoFunction {
    fn clone(&self) -> (r: Self)
        ensures
            r == *self,
    {
        match self {
            CryptoFunction::Daily => CryptoFunction::Daily,
            CryptoFunction::Weekly => CryptoFunction::Weekly,
            CryptoFunction::Monthly => CryptoFunction::Monthly,
        }
    }
}

/// The name by which the service knows a kind of series.
pub open spec fn function_name(function: CryptoFunction) -> Seq<char> {
    match function {
        CryptoFunction::Daily => "DIGITAL_CURRENCY_DAILY"@,
        CryptoFunction::Weekly => "DIGITAL_CURRENCY_WEEKLY"@,
        CryptoFunction::Monthly => "DIGITAL_CURRENCY_MONTHLY"@,
    }
}

/// Builder to help create `Crypto`
pub struct CryptoBuilder<'a> {
    function: CryptoFunction,
    symbol: &'a str,
    market: &'a str,
}

impl<'a> CryptoBuilder<'a> {
    /// The kind of series that is asked for.
    pub closed spec fn function(&self) -> CryptoFunction {
        self.function
    }

    /// The code of the digital currency.
    pub closed spec fn symbol(&self) -> Seq<char> {
        self.symbol@
    }

    /// The code of the market in which the currency is quoted.
    pub closed spec fn market(&self) -> Seq<char> {
        self.market@
    }

    /// Create new `CryptoBuilder` for a kind of series, a digital currency
    /// and a market
    #[must_use]
    pub fn new(function: CryptoFunction, symbol: &'a str, market: &'a str) -> (r: Self)
        ensures
            r.function() == function,
            r.symbol() == symbol@,
            r.market() == market@,
    {
        Self { function, symbol, market }
    }

    /// The path and query of the request: the function by its name, the
    /// symbol and the market.
    pub fn create_url(&self) -> (path: String)
        ensures
            path@ == "query?function="@ + function_name(self.function()) + "&symbol="@
                + self.symbol() + "&market="@ + self.market(),
    {
        let function_name = match self.function {
            CryptoFunction::Daily => "DIGITAL_CURRENCY_DAILY",
            CryptoFunction::Weekly => "DIGITAL_CURRENCY_WEEKLY",
            CryptoFunction::Monthly => "DIGITAL_CURRENCY_MONTHLY",
        };
        let mut path = String::from_str("query?function=");
        path.append(function_name);
        path.append("&symbol=");
        path.append(self.symbol);
        path.append("&market=");
        path.append(self.market);
        path
    }
}

} // verus!
