use vstd::prelude::*;

use vstd::string::StrSliceExecFns;
use vstd::string::StringExecFns;

verus! {

// Column sniffing for tweet corpora handed over as a table of byte
// fields (a vector of columns, each a vector of cells).  The rating
// column is one whose cells all hold a single rating digit, possibly
// quoted; the data column is the one whose decoded cells have the
// largest average length while all staying within a tweet's bounds.

/// What a cell's bytes decode to under the guessed character encoding;
/// the result depends on the bytes alone.
pub uninterp spec fn decoded_of(bytes: Seq<u8>) -> Seq<char>;

/// Relies on chardetng's `EncodingDetector` (`new`, `feed`, `guess`)
/// and encoding_rs's `Encoding::decode`: guesses the encoding of the
/// bytes and decodes them by it.  Both steps are deterministic in the
/// bytes.
#[verifier::external_body]
pub fn detect_and_decode(bytes: &Vec<u8>) -> (r: String)
    ensures
        r@ == decoded_of(bytes@),
{
    let mut detector = chardetng::EncodingDetector::new();
    detector.feed(bytes, true);
    let encoding = detector.guess(None, true);
    let (decoded, _, _) = encoding.decode(bytes);
    decoded.into_owned()
}

/// The byte length of a cell's decoded text, re-encoded as UTF-8:
/// what `String::len` reports of the decoded cell.
pub open spec fn spec_cell_len(bytes: Seq<u8>) -> usize {
    vstd::utf8::encode_utf8(decoded_of(bytes)).len() as usize
}

/// The decoded byte lengths of a column's cells, in order.
pub open spec fn spec_col_lens(col: Seq<Vec<u8>>) -> Seq<usize> {
    Seq::new(col.len(), |j: int| spec_cell_len(col[j]@))
}

/// The decoded lengths of every cell, column by column.
pub fn to_string_size(veced_records: &Vec<Vec<Vec<u8>>>) -> (r: Vec<Vec<usize>>)
    ensures
        r@.len() == veced_records@.len(),
        forall|i: int|
            0 <= i < r@.len() ==> (#[trigger] r@[i])@ == spec_col_lens(veced_records@[i]@),
{
    let mut out: Vec<Vec<usize>> = Vec::new();
    let mut i: usize = 0;
    while i < veced_records.len()
        invariant
            i <= veced_records@.len(),
            out@.len() == i,
            forall|w: int|
                0 <= w < i ==> (#[trigger] out@[w])@ == spec_col_lens(veced_records@[w]@),
        decreases veced_records@.len() - i,
    {
        let mut row: Vec<usize> = Vec::new();
        let mut j: usize = 0;
        while j < veced_records[i].len()
            invariant
                i < veced_records@.len(),
                j <= veced_records@[i as int]@.len(),
                row@.len() == j,
                forall|w: int|
                    0 <= w < j ==> (#[trigger] row@[w]) == spec_cell_len(
                        veced_records@[i as int]@[w]@,
                    ),
            decreases veced_records@[i as int]@.len() - j,
        {
            let text = detect_and_decode(&veced_records[i][j]);
            row.push(text.as_str().len());
            j += 1;
        }
        proof {
            assert(row@ =~= spec_col_lens(veced_records@[i as int]@));
        }
        out.push(row);
        i += 1;
    }
    out
}

/// The decoded lengths of every cell; one name per caller in the
/// ingestion layers.
pub fn map_to_string_size(veced_records: &Vec<Vec<Vec<u8>>>) -> (r: Vec<Vec<usize>>)
    ensures
        r@.len() == veced_records@.len(),
        forall|i: int|
            0 <= i < r@.len() ==> (#[trigger] r@[i])@ == spec_col_lens(veced_records@[i]@),
{
    to_string_size(veced_records)
}

/// Is the byte one of the rating digits 0, 2 or 4?
pub open spec fn spec_byte_is_rating(byte: u8) -> bool {
    byte == 48 || byte == 50 || byte == 52
}

/// A rating cell: a single rating digit, or one in double quotes.
pub open spec fn spec_bytes_is_rating(bytes: Seq<u8>) -> bool {
    if bytes.len() == 1 {
        spec_byte_is_rating(bytes[0])
    } else if bytes.len() == 3 {
        bytes[0] == 34 && spec_byte_is_rating(bytes[1]) && bytes[2] == 34
    } else {
        false
    }
}

/// Accepts the rating digits 0, 2 and 4.
pub fn byte_is_rating(byte: u8) -> (r: bool)
    ensures
        r == spec_byte_is_rating(byte),
{
    byte == 48 || byte == 50 || byte == 52
}

/// Accepts a single rating digit, bare or in double quotes.
pub fn bytes_is_rating(bytes: &Vec<u8>) -> (r: bool)
    ensures
        r == spec_bytes_is_rating(bytes@),
{
    if bytes.len() == 1 {
        byte_is_rating(bytes[0])
    } else if bytes.len() == 3 {
        bytes[0] == 34 && byte_is_rating(bytes[1]) && bytes[2] == 34
    } else {
        false
    }
}

/// Do all cells of the column hold a rating?
pub open spec fn spec_col_all_rating(col: Seq<Vec<u8>>) -> bool {
    forall|j: int| 0 <= j < col.len() ==> spec_bytes_is_rating((#[trigger] col[j])@)
}

fn col_all_rating(col: &Vec<Vec<u8>>) -> (r: bool)
    ensures
        r == spec_col_all_rating(col@),
{
    let mut j: usize = 0;
    while j < col.len()
        invariant
            j <= col@.len(),
            forall|w: int| 0 <= w < j ==> spec_bytes_is_rating((#[trigger] col@[w])@),
        decreases col@.len() - j,
    {
        if !bytes_is_rating(&col[j]) {
            return false;
        }
        j += 1;
    }
    true
}

/// The first column at or after `i` whose cells are all ratings.
pub open spec fn spec_rating_col_from(records: Seq<Vec<Vec<u8>>>, i: int) -> Option<int>
    decreases records.len() - i,
{
    if i < 0 || i >= records.len() {
        None
    } else if spec_col_all_rating(records[i]@) {
        Some(i)
    } else {
        spec_rating_col_from(records, i + 1)
    }
}

/// The sniffed rating column: the first whose cells are all ratings.
pub open spec fn spec_rating_col(records: Seq<Vec<Vec<u8>>>) -> Option<int> {
    spec_rating_col_from(records, 0)
}

/// What the rating scan's outcome says of the columns it passed.
pub proof fn lemma_rating_col_props(records: Seq<Vec<Vec<u8>>>, i0: int)
    requires
        0 <= i0,
    ensures
        match spec_rating_col_from(records, i0) {
            Some(i) => i0 <= i < records.len() && spec_col_all_rating(records[i]@) && forall|
                w: int,
            | i0 <= w < i ==> !spec_col_all_rating((#[trigger] records[w])@),
            None => forall|w: int|
                i0 <= w < records.len() ==> !spec_col_all_rating((#[trigger] records[w])@),
        },
    decreases records.len() - i0,
{
    if i0 < records.len() && !spec_col_all_rating(records[i0]@) {
        lemma_rating_col_props(records, i0 + 1);
    }
}

/// The first column whose cells are all ratings, if any.
pub fn infer_rating_col_from_veced(records: &Vec<Vec<Vec<u8>>>) -> (r: Option<usize>)
    ensures
        match r {
            Some(i) => spec_rating_col(records@) == Some(i as int) && i < records@.len()
                && spec_col_all_rating(records@[i as int]@) && forall|w: int|
                0 <= w < i ==> !spec_col_all_rating((#[trigger] records@[w])@),
            None => spec_rating_col(records@) is None && forall|w: int|
                0 <= w < records@.len() ==> !spec_col_all_rating((#[trigger] records@[w])@),
        },
{
    let mut i: usize = 0;
    while i < records.len()
        invariant
            i <= records@.len(),
            spec_rating_col(records@) == spec_rating_col_from(records@, i as int),
        decreases records@.len() - i,
    {
        if col_all_rating(&records[i]) {
            proof {
                lemma_rating_col_props(records@, 0);
            }
            return Some(i);
        }
        i += 1;
    }
    proof {
        lemma_rating_col_props(records@, 0);
    }
    None
}

/// The most characters a cell may hold to pass as a tweet.
pub const TWEET_MAX_CHARS: usize = 280;

/// The sum of the first `m` lengths of a column.
pub open spec fn col_sum(lens: Seq<usize>, m: int) -> int
    decreases m,
{
    if m <= 0 {
        0
    } else {
        col_sum(lens, m - 1) + lens[m - 1]
    }
}

pub open spec fn spec_all_small(lens: Seq<usize>) -> bool {
    forall|j: int| 0 <= j < lens.len() ==> (#[trigger] lens[j]) <= TWEET_MAX_CHARS
}

/// The score of a column: the smaller the better; the largest average
/// cell length wins, a column with any cell longer than a tweet (or
/// with no cell at all) is out.
pub open spec fn spec_col_score(lens: Seq<usize>) -> int {
    if !spec_all_small(lens) || lens.len() == 0 {
        usize::MAX as int
    } else {
        TWEET_MAX_CHARS - col_sum(lens, lens.len() as int) / (lens.len() as int)
    }
}

proof fn lemma_col_sum_bound(lens: Seq<usize>, m: int)
    requires
        0 <= m <= lens.len(),
        spec_all_small(lens),
    ensures
        0 <= col_sum(lens, m) <= m * TWEET_MAX_CHARS,
    decreases m,
{
    if m > 0 {
        lemma_col_sum_bound(lens, m - 1);
    }
}

fn col_score(lens: &Vec<usize>) -> (r: usize)
    requires
        lens@.len() <= 0x7fff_ffff,
    ensures
        r == spec_col_score(lens@),
{
    let n = lens.len();
    if n == 0 {
        return usize::MAX;
    }
    let mut sum: u64 = 0;
    let mut j: usize = 0;
    while j < n
        invariant
            j <= n,
            n == lens@.len(),
            n <= 0x7fff_ffff,
            forall|w: int| 0 <= w < j ==> (#[trigger] lens@[w]) <= TWEET_MAX_CHARS,
            sum == col_sum(lens@, j as int),
            sum <= j * (TWEET_MAX_CHARS as int),
        decreases n - j,
    {
        if lens[j] > TWEET_MAX_CHARS {
            proof {
                assert(!spec_all_small(lens@));
            }
            return usize::MAX;
        }
        sum = sum + lens[j] as u64;
        j += 1;
    }
    let avg_w: u64 = sum / (n as u64);
    proof {
        lemma_col_sum_bound(lens@, n as int);
        assert(sum / (n as u64) == col_sum(lens@, n as int) / (n as int));
        assert(avg_w <= TWEET_MAX_CHARS) by {
            vstd::arithmetic::div_mod::lemma_div_is_ordered(
                col_sum(lens@, n as int),
                (n as int) * TWEET_MAX_CHARS,
                n as int,
            );
            assert((n as int) * TWEET_MAX_CHARS / (n as int) == TWEET_MAX_CHARS) by {
                vstd::arithmetic::div_mod::lemma_div_by_multiple(
                    TWEET_MAX_CHARS as int,
                    n as int,
                );
                assert((n as int) * TWEET_MAX_CHARS == TWEET_MAX_CHARS * (n as int))
                    by (nonlinear_arith);
            }
        }
    }
    let avg = avg_w as usize;
    proof {
        assert(spec_all_small(lens@));
        assert(TWEET_MAX_CHARS - col_sum(lens@, lens@.len() as int) / (lens@.len() as int)
            == TWEET_MAX_CHARS - avg);
    }
    TWEET_MAX_CHARS - avg
}

/// The character sequences of a table of length columns.
pub open spec fn lens_views(sizes: Seq<Vec<usize>>) -> Seq<Seq<usize>> {
    sizes.map_values(|v: Vec<usize>| v@)
}

/// The best (column, score) seen among the first `i` columns: a column
/// replaces the running best only with a strictly smaller score, so
/// ties keep the earlier column.
pub open spec fn spec_data_scan(sizes: Seq<Seq<usize>>, i: int) -> (Option<int>, int)
    decreases i,
{
    if i <= 0 {
        (None::<int>, usize::MAX as int)
    } else {
        let prev = spec_data_scan(sizes, i - 1);
        if spec_col_score(sizes[i - 1]) < prev.1 {
            (Some(i - 1), spec_col_score(sizes[i - 1]))
        } else {
            prev
        }
    }
}

/// The sniffed data column of a table of cell lengths.
pub open spec fn spec_data_col(sizes: Seq<Seq<usize>>) -> Option<int> {
    spec_data_scan(sizes, sizes.len() as int).0
}

/// The cell-length table of a byte table, column by column.
pub open spec fn spec_lens_table(records: Seq<Vec<Vec<u8>>>) -> Seq<Seq<usize>> {
    Seq::new(records.len(), |i: int| spec_col_lens(records[i]@))
}

/// All column length vectors are within machine bounds.
pub open spec fn sizes_bounded(sizes: Seq<Vec<usize>>) -> bool {
    forall|i: int| 0 <= i < sizes.len() ==> (#[trigger] sizes[i])@.len() <= 0x7fff_ffff
}

/// The column with the best (smallest) score, earlier columns winning
/// ties; `None` when every column is out.
pub fn infer_data_col_from_sizes(sizes: &Vec<Vec<usize>>) -> (r: Option<usize>)
    requires
        sizes_bounded(sizes@),
    ensures
        match r {
            Some(i) => spec_data_col(lens_views(sizes@)) == Some(i as int) && i < sizes@.len()
                && spec_col_score(sizes@[i as int]@) < usize::MAX && (forall|w: int|
                0 <= w < sizes@.len() ==> spec_col_score((#[trigger] sizes@[w])@)
                    >= spec_col_score(sizes@[i as int]@)) && (forall|w: int|
                0 <= w < i ==> spec_col_score((#[trigger] sizes@[w])@) > spec_col_score(
                    sizes@[i as int]@,
                )),
            None => spec_data_col(lens_views(sizes@)) is None && forall|w: int|
                0 <= w < sizes@.len() ==> spec_col_score((#[trigger] sizes@[w])@)
                    == usize::MAX as int,
        },
{
    let ghost lv = lens_views(sizes@);
    let mut best_col: Option<usize> = None;
    let mut best_score: usize = usize::MAX;
    let mut i: usize = 0;
    while i < sizes.len()
        invariant
            i <= sizes@.len(),
            sizes_bounded(sizes@),
            lv == lens_views(sizes@),
            spec_data_scan(lv, i as int) == (
                match best_col {
                    Some(b) => Some(b as int),
                    None => None::<int>,
                },
                best_score as int,
            ),
            match best_col {
                Some(b) => b < i && best_score == spec_col_score(sizes@[b as int]@)
                    && best_score < usize::MAX && (forall|w: int|
                    0 <= w < i ==> spec_col_score((#[trigger] sizes@[w])@) >= best_score) && (
                forall|w: int|
                    0 <= w < b ==> spec_col_score((#[trigger] sizes@[w])@) > best_score),
                None => best_score == usize::MAX && forall|w: int|
                    0 <= w < i ==> spec_col_score((#[trigger] sizes@[w])@)
                        == usize::MAX as int,
            },
        decreases sizes@.len() - i,
    {
        let score = col_score(&sizes[i]);
        proof {
            assert(lv[i as int] == sizes@[i as int]@);
        }
        if score < best_score {
            best_score = score;
            best_col = Some(i);
        }
        i += 1;
    }
    proof {
        assert(spec_data_col(lv) == spec_data_scan(lv, sizes@.len() as int).0);
    }
    best_col
}

/// The sniffed column pair: where the tweets stand and where the
/// ratings stand.
pub struct AutoColumns {
    pub data_column: usize,
    pub rating_column: usize,
}

/// What column sniffing reports when it cannot settle both columns.
pub enum AutoLabelError {
    NoRatingFound { data_column: usize },
    NoDataFound { rating_column: usize },
    NoLabelFound,
}

/// The column pair with the rating column optional, for callers that
/// fall back to a default.
pub struct AutoColumnsOption {
    pub data_column: usize,
    pub rating_column: Option<usize>,
}

/// What column sniffing reports when it cannot settle both columns,
/// in the header-driven sniffer's vocabulary.
pub enum AutoColumnsError {
    NoRatingFound { data_column: usize },
    NoDataFound { rating_column: usize },
    NoColumnFound,
}

/// Settles a sniffing result into a column pair with an optional
/// rating: a missing rating column is dropped, a missing data column
/// falls back to the given default.
pub fn to_auto_columns(result: &Result<AutoColumns, AutoColumnsError>, default_data: usize) -> (r:
    AutoColumnsOption)
    ensures
        match result {
            Ok(c) => r.data_column == c.data_column && r.rating_column == Some(
                c.rating_column,
            ),
            Err(e) => match e {
                AutoColumnsError::NoRatingFound { data_column } => r.data_column == data_column
                    && r.rating_column is None,
                AutoColumnsError::NoDataFound { rating_column } => r.data_column == default_data
                    && r.rating_column == Some(*rating_column),
                AutoColumnsError::NoColumnFound => r.data_column == default_data
                    && r.rating_column is None,
            },
        },
{
    match result {
        Ok(res) => AutoColumnsOption {
            data_column: res.data_column,
            rating_column: Some(res.rating_column),
        },
        Err(e) => e.to_auto_columns(default_data),
    }
}

impl AutoColumnsError {
    /// The fallback column pair of a sniffing failure.
    pub fn to_auto_columns(&self, default_data: usize) -> (r: AutoColumnsOption)
        ensures
            match self {
                AutoColumnsError::NoRatingFound { data_column } => r.data_column == data_column
                    && r.rating_column is None,
                AutoColumnsError::NoDataFound { rating_column } => r.data_column == default_data
                    && r.rating_column == Some(*rating_column),
                AutoColumnsError::NoColumnFound => r.data_column == default_data
                    && r.rating_column is None,
            },
    {
        match self {
            AutoColumnsError::NoRatingFound { data_column } => AutoColumnsOption {
                data_column: *data_column,
                rating_column: None,
            },
            AutoColumnsError::NoDataFound { rating_column } => AutoColumnsOption {
                data_column: default_data,
                rating_column: Some(*rating_column),
            },
            AutoColumnsError::NoColumnFound => AutoColumnsOption {
                data_column: default_data,
                rating_column: None,
            },
        }
    }
}

/// Every column holds a bounded number of cells.
pub open spec fn records_bounded(recs: Seq<Vec<Vec<u8>>>) -> bool {
    forall|i: int| 0 <= i < recs.len() ==> (#[trigger] recs[i])@.len() <= 0x7fff_ffff
}

/// The four-way outcome column sniffing owes: both columns when both
/// are found, the found one inside the matching error otherwise.
pub open spec fn spec_sniff_outcome(
    r: Result<AutoColumns, AutoLabelError>,
    d: Option<int>,
    c: Option<int>,
) -> bool {
    match r {
        Ok(a) => d == Some(a.data_column as int) && c == Some(a.rating_column as int),
        Err(e) => match e {
            AutoLabelError::NoRatingFound { data_column } => d == Some(data_column as int)
                && c is None,
            AutoLabelError::NoDataFound { rating_column } => d is None && c == Some(
                rating_column as int,
            ),
            AutoLabelError::NoLabelFound => d is None && c is None,
        },
    }
}

/// Sniffs both columns from the cell contents: the decoded cell
/// lengths pick the data column, the rating digits pick the rating
/// column; whichever is missing names the other in the error.
pub fn sniff_labels_from_veced(veced_records: &Vec<Vec<Vec<u8>>>) -> (r: Result<
    AutoColumns,
    AutoLabelError,
>)
    requires
        records_bounded(veced_records@),
    ensures
        spec_sniff_outcome(
            r,
            spec_data_col(spec_lens_table(veced_records@)),
            spec_rating_col(veced_records@),
        ),
{
    let sizes = map_to_string_size(veced_records);
    proof {
        assert(sizes_bounded(sizes@));
        assert(lens_views(sizes@) =~= spec_lens_table(veced_records@));
    }
    let data_column = infer_data_col_from_sizes(&sizes);
    let rating_column = infer_rating_col_from_veced(veced_records);
    match (data_column, rating_column) {
        (Some(d), Some(c)) => Ok(AutoColumns { data_column: d, rating_column: c }),
        (Some(d), None) => Err(AutoLabelError::NoRatingFound { data_column: d }),
        (None, Some(c)) => Err(AutoLabelError::NoDataFound { rating_column: c }),
        (None, None) => Err(AutoLabelError::NoLabelFound),
    }
}

/// Retries the sniff that failed: a missing rating column is looked
/// for again in the cells, a missing data column likewise; any other
/// failure sniffs both columns afresh.
pub fn sniff_labels_with_err(
    veced_records: &Vec<Vec<Vec<u8>>>,
    error: AutoLabelError,
) -> (r: Result<AutoColumns, AutoLabelError>)
    requires
        records_bounded(veced_records@),
    ensures
        ({
            let d = spec_data_col(spec_lens_table(veced_records@));
            let c = spec_rating_col(veced_records@);
            match error {
                AutoLabelError::NoRatingFound { data_column } => match r {
                    Ok(a) => a.data_column == data_column && c == Some(
                        a.rating_column as int,
                    ),
                    Err(e) => e == (AutoLabelError::NoRatingFound { data_column })
                        && c is None,
                },
                AutoLabelError::NoDataFound { rating_column } => match r {
                    Ok(a) => a.rating_column == rating_column && d == Some(
                        a.data_column as int,
                    ),
                    Err(e) => e == (AutoLabelError::NoDataFound { rating_column })
                        && d is None,
                },
                AutoLabelError::NoLabelFound => spec_sniff_outcome(r, d, c),
            }
        }),
{
    match error {
        AutoLabelError::NoRatingFound { data_column } => sniff_rating_with_data(
            veced_records,
            data_column,
        ),
        AutoLabelError::NoDataFound { rating_column } => sniff_data_with_rating(
            veced_records,
            rating_column,
        ),
        _ => sniff_labels_from_veced(veced_records),
    }
}

/// Keeps the known rating column and sniffs the data column from the
/// decoded cell lengths.
pub fn sniff_data_with_rating(
    veced_records: &Vec<Vec<Vec<u8>>>,
    rating_column: usize,
) -> (r: Result<AutoColumns, AutoLabelError>)
    requires
        records_bounded(veced_records@),
    ensures
        match r {
            Ok(c) => c.rating_column == rating_column && spec_data_col(
                spec_lens_table(veced_records@),
            ) == Some(c.data_column as int),
            Err(e) => e == (AutoLabelError::NoDataFound { rating_column }) && spec_data_col(
                spec_lens_table(veced_records@),
            ) is None,
        },
{
    let sizes = map_to_string_size(veced_records);
    proof {
        assert(sizes_bounded(sizes@));
        assert(lens_views(sizes@) =~= spec_lens_table(veced_records@));
    }
    match infer_data_col_from_sizes(&sizes) {
        Some(data_column) => Ok(AutoColumns { data_column, rating_column }),
        None => Err(AutoLabelError::NoDataFound { rating_column }),
    }
}

/// Keeps the known data column and sniffs the rating column from the
/// rating digits.
pub fn sniff_rating_with_data(
    veced_records: &Vec<Vec<Vec<u8>>>,
    data_column: usize,
) -> (r: Result<AutoColumns, AutoLabelError>)
    ensures
        match r {
            Ok(c) => c.data_column == data_column && spec_rating_col(veced_records@) == Some(
                c.rating_column as int,
            ),
            Err(e) => e == (AutoLabelError::NoRatingFound { data_column }) && spec_rating_col(
                veced_records@,
            ) is None,
        },
{
    match infer_rating_col_from_veced(veced_records) {
        Some(rating_column) => Ok(AutoColumns { data_column, rating_column }),
        None => Err(AutoLabelError::NoRatingFound { data_column }),
    }
}

/// Does a header name a tweet-text column?
pub open spec fn spec_is_data_header(h: Seq<char>) -> bool {
    h == "tweet"@ || h == "message"@ || h == "content"@ || h == "data"@ || h
        == "tweet_content"@
}

/// Does a header name a rating column?
pub open spec fn spec_is_rating_header(h: Seq<char>) -> bool {
    h == "rating"@ || h == "polarity"@ || h == "grade"@ || h == "positivity"@
}

fn is_data_header(h: &String) -> (r: bool)
    ensures
        r == spec_is_data_header(h@),
{
    let t1: String = String::from_str("tweet");
    let t2: String = String::from_str("message");
    let t3: String = String::from_str("content");
    let t4: String = String::from_str("data");
    let t5: String = String::from_str("tweet_content");
    *h == t1 || *h == t2 || *h == t3 || *h == t4 || *h == t5
}

fn is_rating_header(h: &String) -> (r: bool)
    ensures
        r == spec_is_rating_header(h@),
{
    let t1: String = String::from_str("rating");
    let t2: String = String::from_str("polarity");
    let t3: String = String::from_str("grade");
    let t4: String = String::from_str("positivity");
    *h == t1 || *h == t2 || *h == t3 || *h == t4
}

/// The header scan state after the first `m` headers: the recorded
/// data and rating columns, and whether each was found before the
/// other side was.
pub open spec fn header_scan(headers: Seq<Seq<char>>, m: int) -> (int, int, bool, bool)
    decreases m,
{
    if m <= 0 {
        (0, 0, false, false)
    } else {
        let (dc, rc, df, rf) = header_scan(headers, m - 1);
        let h = crate::token::lower_seq(headers[m - 1]);
        if spec_is_data_header(h) {
            if rf {
                (m - 1, rc, df, rf)
            } else {
                (m - 1, rc, true, rf)
            }
        } else if spec_is_rating_header(h) {
            if df {
                (dc, m - 1, df, rf)
            } else {
                (dc, m - 1, df, true)
            }
        } else {
            (dc, rc, df, rf)
        }
    }
}

/// Sniffs the columns from the header row, matching the known data and
/// rating header names case-insensitively.  A header seen after the
/// other side was already found records its column without counting as
/// found, so the caller always gets at least one side to confirm
/// against the cells.
pub fn sniff_labels_from_headers(headers: &Vec<String>) -> (r: Result<
    AutoColumns,
    AutoLabelError,
>)
    ensures
        ({
            let (dc, rc, df, rf) = header_scan(
                headers@.map_values(|h: String| h@),
                headers@.len() as int,
            );
            match r {
                Ok(c) => df && rf && c.data_column == dc && c.rating_column == rc,
                Err(e) => match e {
                    AutoLabelError::NoRatingFound { data_column } => df && !rf && data_column
                        == dc,
                    AutoLabelError::NoDataFound { rating_column } => !df && rf && rating_column
                        == rc,
                    AutoLabelError::NoLabelFound => !df && !rf,
                },
            }
        }),
{
    let ghost hm = headers@.map_values(|h: String| h@);
    let mut data_col: usize = 0;
    let mut rating_col: usize = 0;
    let mut data_found = false;
    let mut rating_found = false;
    let mut i: usize = 0;
    while i < headers.len()
        invariant
            i <= headers@.len(),
            hm == headers@.map_values(|h: String| h@),
            header_scan(hm, i as int) == (
                data_col as int,
                rating_col as int,
                data_found,
                rating_found,
            ),
        decreases headers@.len() - i,
    {
        let lower = crate::token::to_lower(headers[i].as_str());
        proof {
            assert(lower@ == crate::token::lower_seq(hm[i as int]));
        }
        if is_data_header(&lower) {
            data_col = i;
            if !rating_found {
                data_found = true;
            }
        } else if is_rating_header(&lower) {
            rating_col = i;
            if !data_found {
                rating_found = true;
            }
        }
        i += 1;
    }
    if data_found && rating_found {
        Ok(AutoColumns { data_column: data_col, rating_column: rating_col })
    } else if data_found {
        Err(AutoLabelError::NoRatingFound { data_column: data_col })
    } else if rating_found {
        Err(AutoLabelError::NoDataFound { rating_column: rating_col })
    } else {
        Err(AutoLabelError::NoLabelFound)
    }
}

/// The header-driven column sniffer.  It recognises the same headers
/// as the free functions, but its rating digits are 0, 2 and 4.
pub struct ColsSniffer;

/// Is the byte one of the rating digits 0, 2 or 4?
pub open spec fn spec_cols_byte_is_rating(byte: u8) -> bool {
    byte == 48 || byte == 50 || byte == 52
}

/// A rating cell of the header-driven sniffer: a single digit of 0, 2
/// or 4, bare or in double quotes.
pub open spec fn spec_cols_bytes_is_rating(bytes: Seq<u8>) -> bool {
    if bytes.len() == 1 {
        spec_cols_byte_is_rating(bytes[0])
    } else if bytes.len() == 3 {
        bytes[0] == 34 && spec_cols_byte_is_rating(bytes[1]) && bytes[2] == 34
    } else {
        false
    }
}

pub open spec fn spec_cols_all_rating(col: Seq<Vec<u8>>) -> bool {
    forall|j: int| 0 <= j < col.len() ==> spec_cols_bytes_is_rating((#[trigger] col[j])@)
}

/// The first column at or after `i` whose cells are all ratings, under
/// the header-driven sniffer's digit set.
pub open spec fn spec_cols_rating_col_from(records: Seq<Vec<Vec<u8>>>, i: int) -> Option<int>
    decreases records.len() - i,
{
    if i < 0 || i >= records.len() {
        None
    } else if spec_cols_all_rating(records[i]@) {
        Some(i)
    } else {
        spec_cols_rating_col_from(records, i + 1)
    }
}

pub open spec fn spec_cols_rating_col(records: Seq<Vec<Vec<u8>>>) -> Option<int> {
    spec_cols_rating_col_from(records, 0)
}

/// The four-way outcome the header-driven sniffer owes.
pub open spec fn spec_cols_outcome(
    r: Result<AutoColumns, AutoColumnsError>,
    d: Option<int>,
    c: Option<int>,
) -> bool {
    match r {
        Ok(a) => d == Some(a.data_column as int) && c == Some(a.rating_column as int),
        Err(e) => match e {
            AutoColumnsError::NoRatingFound { data_column } => d == Some(data_column as int)
                && c is None,
            AutoColumnsError::NoDataFound { rating_column } => d is None && c == Some(
                rating_column as int,
            ),
            AutoColumnsError::NoColumnFound => d is None && c is None,
        },
    }
}

impl ColsSniffer {
    /// Accepts the rating digits 0, 2 and 4.
    pub fn byte_is_rating(byte: u8) -> (r: bool)
        ensures
            r == spec_cols_byte_is_rating(byte),
    {
        byte == 48 || byte == 50 || byte == 52
    }

    /// Accepts a single rating digit, bare or in double quotes.
    pub fn bytes_is_rating(bytes: &Vec<u8>) -> (r: bool)
        ensures
            r == spec_cols_bytes_is_rating(bytes@),
    {
        if bytes.len() == 1 {
            Self::byte_is_rating(bytes[0])
        } else if bytes.len() == 3 {
            bytes[0] == 34 && Self::byte_is_rating(bytes[1]) && bytes[2] == 34
        } else {
            false
        }
    }

    /// The first column whose cells are all ratings, if any.
    pub fn sniff_rating(records: &Vec<Vec<Vec<u8>>>) -> (r: Option<usize>)
        ensures
            match r {
                Some(i) => spec_cols_rating_col(records@) == Some(i as int),
                None => spec_cols_rating_col(records@) is None,
            },
    {
        let mut i: usize = 0;
        while i < records.len()
            invariant
                i <= records@.len(),
                spec_cols_rating_col(records@) == spec_cols_rating_col_from(records@, i as int),
                forall|w: int| 0 <= w < i ==> !spec_cols_all_rating((#[trigger] records@[w])@),
            decreases records@.len() - i,
        {
            let mut all = true;
            let mut j: usize = 0;
            while j < records[i].len()
                invariant
                    i < records@.len(),
                    j <= records@[i as int]@.len(),
                    all == (forall|w: int|
                        0 <= w < j ==> spec_cols_bytes_is_rating(
                            (#[trigger] records@[i as int]@[w])@,
                        )),
                decreases records@[i as int]@.len() - j,
            {
                if !Self::bytes_is_rating(&records[i][j]) {
                    all = false;
                }
                proof {
                    if !all {
                        let w = records@[i as int]@[j as int];
                    }
                }
                j += 1;
            }
            if all {
                return Some(i);
            }
            i += 1;
        }
        None
    }

    /// Keeps the known data column and sniffs the rating column.
    pub fn sniff_rating_with_data(
        veced_records: &Vec<Vec<Vec<u8>>>,
        data_column: usize,
    ) -> (r: Result<AutoColumns, AutoColumnsError>)
        ensures
            match r {
                Ok(c) => c.data_column == data_column && spec_cols_rating_col(veced_records@)
                    == Some(c.rating_column as int),
                Err(e) => e == (AutoColumnsError::NoRatingFound { data_column })
                    && spec_cols_rating_col(veced_records@) is None,
            },
    {
        match Self::sniff_rating(veced_records) {
            Some(rating_column) => Ok(AutoColumns { data_column, rating_column }),
            None => Err(AutoColumnsError::NoRatingFound { data_column }),
        }
    }

    /// Keeps the known rating column and sniffs the data column.
    pub fn sniff_data_with_rating(
        veced_records: &Vec<Vec<Vec<u8>>>,
        rating_column: usize,
    ) -> (r: Result<AutoColumns, AutoColumnsError>)
        requires
            records_bounded(veced_records@),
        ensures
            match r {
                Ok(c) => c.rating_column == rating_column && spec_data_col(
                    spec_lens_table(veced_records@),
                ) == Some(c.data_column as int),
                Err(e) => e == (AutoColumnsError::NoDataFound { rating_column })
                    && spec_data_col(spec_lens_table(veced_records@)) is None,
            },
    {
        let sizes = map_to_string_size(veced_records);
        proof {
            assert(sizes_bounded(sizes@));
            assert(lens_views(sizes@) =~= spec_lens_table(veced_records@));
        }
        match infer_data_col_from_sizes(&sizes) {
            Some(data_column) => Ok(AutoColumns { data_column, rating_column }),
            None => Err(AutoColumnsError::NoDataFound { rating_column }),
        }
    }

    /// Sniffs both columns from the cells.
    pub fn sniff_columns_from_vec2d(veced_records: &Vec<Vec<Vec<u8>>>) -> (r: Result<
        AutoColumns,
        AutoColumnsError,
    >)
        requires
            records_bounded(veced_records@),
        ensures
            spec_cols_outcome(
                r,
                spec_data_col(spec_lens_table(veced_records@)),
                spec_cols_rating_col(veced_records@),
            ),
    {
        let sizes = map_to_string_size(veced_records);
        proof {
            assert(sizes_bounded(sizes@));
            assert(lens_views(sizes@) =~= spec_lens_table(veced_records@));
        }
        let data_column = infer_data_col_from_sizes(&sizes);
        let rating_column = Self::sniff_rating(veced_records);
        match (data_column, rating_column) {
            (Some(d), Some(c)) => Ok(AutoColumns { data_column: d, rating_column: c }),
            (Some(d), None) => Err(AutoColumnsError::NoRatingFound { data_column: d }),
            (None, Some(c)) => Err(AutoColumnsError::NoDataFound { rating_column: c }),
            (None, None) => Err(AutoColumnsError::NoColumnFound),
        }
    }

    /// Retries the sniff that failed.
    pub fn sniff_columns_with_err(
        veced_records: &Vec<Vec<Vec<u8>>>,
        error: AutoColumnsError,
    ) -> (r: Result<AutoColumns, AutoColumnsError>)
        requires
            records_bounded(veced_records@),
        ensures
            ({
                let d = spec_data_col(spec_lens_table(veced_records@));
                let c = spec_cols_rating_col(veced_records@);
                match error {
                    AutoColumnsError::NoRatingFound { data_column } => match r {
                        Ok(a) => a.data_column == data_column && c == Some(
                            a.rating_column as int,
                        ),
                        Err(e) => e == (AutoColumnsError::NoRatingFound { data_column })
                            && c is None,
                    },
                    AutoColumnsError::NoDataFound { rating_column } => match r {
                        Ok(a) => a.rating_column == rating_column && d == Some(
                            a.data_column as int,
                        ),
                        Err(e) => e == (AutoColumnsError::NoDataFound { rating_column })
                            && d is None,
                    },
                    AutoColumnsError::NoColumnFound => spec_cols_outcome(r, d, c),
                }
            }),
    {
        match error {
            AutoColumnsError::NoRatingFound { data_column } => Self::sniff_rating_with_data(
                veced_records,
                data_column,
            ),
            AutoColumnsError::NoDataFound { rating_column } => Self::sniff_data_with_rating(
                veced_records,
                rating_column,
            ),
            _ => Self::sniff_columns_from_vec2d(veced_records),
        }
    }

    /// Sniffs the columns from the header row, as the free header scan
    /// does.
    pub fn sniff_columns_from_headers(headers: &Vec<String>) -> (r: Result<
        AutoColumns,
        AutoColumnsError,
    >)
        ensures
            ({
                let (dc, rc, df, rf) = header_scan(
                    headers@.map_values(|h: String| h@),
                    headers@.len() as int,
                );
                match r {
                    Ok(c) => df && rf && c.data_column == dc && c.rating_column == rc,
                    Err(e) => match e {
                        AutoColumnsError::NoRatingFound { data_column } => df && !rf
                            && data_column == dc,
                        AutoColumnsError::NoDataFound { rating_column } => !df && rf
                            && rating_column == rc,
                        AutoColumnsError::NoColumnFound => !df && !rf,
                    },
                }
            }),
    {
        match sniff_labels_from_headers(headers) {
            Ok(c) => Ok(c),
            Err(AutoLabelError::NoRatingFound { data_column }) => Err(
                AutoColumnsError::NoRatingFound { data_column },
            ),
            Err(AutoLabelError::NoDataFound { rating_column }) => Err(
                AutoColumnsError::NoDataFound { rating_column },
            ),
            Err(AutoLabelError::NoLabelFound) => Err(AutoColumnsError::NoColumnFound),
        }
    }
}

/// The column sniffer of the newer ingestion layer; it shares the
/// older free functions' behaviour.
pub struct LabelSniffer;

impl LabelSniffer {
    /// Sniffs the columns from the header row.
    pub fn sniff_labels_from_headers(headers: &Vec<String>) -> (r: Result<
        AutoColumns,
        AutoLabelError,
    >)
        ensures
            ({
                let (dc, rc, df, rf) = header_scan(
                    headers@.map_values(|h: String| h@),
                    headers@.len() as int,
                );
                match r {
                    Ok(c) => df && rf && c.data_column == dc && c.rating_column == rc,
                    Err(e) => match e {
                        AutoLabelError::NoRatingFound { data_column } => df && !rf
                            && data_column == dc,
                        AutoLabelError::NoDataFound { rating_column } => !df && rf
                            && rating_column == rc,
                        AutoLabelError::NoLabelFound => !df && !rf,
                    },
                }
            }),
    {
        sniff_labels_from_headers(headers)
    }

    /// Retries the sniff that failed.
    pub fn sniff_labels_with_err(
        veced_records: &Vec<Vec<Vec<u8>>>,
        error: AutoLabelError,
    ) -> (r: Result<AutoColumns, AutoLabelError>)
        requires
            records_bounded(veced_records@),
        ensures
            ({
                let d = spec_data_col(spec_lens_table(veced_records@));
                let c = spec_rating_col(veced_records@);
                match error {
                    AutoLabelError::NoRatingFound { data_column } => match r {
                        Ok(a) => a.data_column == data_column && c == Some(
                            a.rating_column as int,
                        ),
                        Err(e) => e == (AutoLabelError::NoRatingFound { data_column })
                            && c is None,
                    },
                    AutoLabelError::NoDataFound { rating_column } => match r {
                        Ok(a) => a.rating_column == rating_column && d == Some(
                            a.data_column as int,
                        ),
                        Err(e) => e == (AutoLabelError::NoDataFound { rating_column })
                            && d is None,
                    },
                    AutoLabelError::NoLabelFound => spec_sniff_outcome(r, d, c),
                }
            }),
    {
        sniff_labels_with_err(veced_records, error)
    }

    /// Sniffs both columns from the cells.
    pub fn sniff_labels_from_vec2d(veced_records: &Vec<Vec<Vec<u8>>>) -> (r: Result<
        AutoColumns,
        AutoLabelError,
    >)
        requires
            records_bounded(veced_records@),
        ensures
            spec_sniff_outcome(
                r,
                spec_data_col(spec_lens_table(veced_records@)),
                spec_rating_col(veced_records@),
            ),
    {
        sniff_labels_from_veced(veced_records)
    }

    /// Keeps the known rating column and sniffs the data column.
    pub fn sniff_data_with_rating(
        veced_records: &Vec<Vec<Vec<u8>>>,
        rating_column: usize,
    ) -> (r: Result<AutoColumns, AutoLabelError>)
        requires
            records_bounded(veced_records@),
        ensures
            match r {
                Ok(c) => c.rating_column == rating_column && spec_data_col(
                    spec_lens_table(veced_records@),
                ) == Some(c.data_column as int),
                Err(e) => e == (AutoLabelError::NoDataFound { rating_column })
                    && spec_data_col(spec_lens_table(veced_records@)) is None,
            },
    {
        sniff_data_with_rating(veced_records, rating_column)
    }

    /// The column with the longest plausible cells, from the decoded
    /// cell lengths.
    pub fn sniff_data(veced_records: &Vec<Vec<Vec<u8>>>) -> (r: Option<usize>)
        requires
            records_bounded(veced_records@),
        ensures
            match r {
                Some(i) => spec_data_col(spec_lens_table(veced_records@)) == Some(i as int),
                None => spec_data_col(spec_lens_table(veced_records@)) is None,
            },
    {
        let sizes = map_to_string_size(veced_records);
        proof {
            assert(sizes_bounded(sizes@));
            assert(lens_views(sizes@) =~= spec_lens_table(veced_records@));
        }
        Self::sniff_data_from_sizes(&sizes)
    }

    /// The column with the best (smallest) score among the given
    /// per-column cell lengths.
    pub fn sniff_data_from_sizes(sizes: &Vec<Vec<usize>>) -> (r: Option<usize>)
        requires
            sizes_bounded(sizes@),
        ensures
            match r {
                Some(i) => spec_data_col(lens_views(sizes@)) == Some(i as int),
                None => spec_data_col(lens_views(sizes@)) is None,
            },
    {
        infer_data_col_from_sizes(sizes)
    }

    /// Keeps the known data column and sniffs the rating column.
    pub fn sniff_rating_with_data(
        veced_records: &Vec<Vec<Vec<u8>>>,
        data_column: usize,
    ) -> (r: Result<AutoColumns, AutoLabelError>)
        ensures
            match r {
                Ok(c) => c.data_column == data_column && spec_rating_col(veced_records@)
                    == Some(c.rating_column as int),
                Err(e) => e == (AutoLabelError::NoRatingFound { data_column })
                    && spec_rating_col(veced_records@) is None,
            },
    {
        sniff_rating_with_data(veced_records, data_column)
    }

    /// The first column whose cells are all ratings, if any.
    pub fn sniff_rating(records: &Vec<Vec<Vec<u8>>>) -> (r: Option<usize>)
        ensures
            match r {
                Some(i) => spec_rating_col(records@) == Some(i as int),
                None => spec_rating_col(records@) is None,
            },
    {
        infer_rating_col_from_veced(records)
    }
}

} // verus!
