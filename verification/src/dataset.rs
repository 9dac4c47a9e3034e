//! A labelled dataset for evaluating a classifier, and the table that an
//! evaluation is written to.

use crate::dates;
use crate::dates::days_to_ymd;
use crate::label_map::LabelMap;
use crate::scalar::Scalar;
use crate::text;
use crate::types::ClassificationResult;
use vstd::prelude::*;

verus! {

broadcast use LabelMap::lemma_keys;

// ---------------------------------------------------------------------------
// Dataset
// ---------------------------------------------------------------------------

/// An entry of the dataset: a text, how clearly it belongs to a category, and
/// the categories that it belongs to.
#[derive(Debug, Clone)]
pub struct DatasetEntry {
    pub id: u32,
    pub text: String,
    pub ambiguity_level: String,
    pub primary_category: Option<String>,
    pub secondary_category: Option<String>,
}

/// What a [`DatasetEntry`] says.
#[verifier::ext_equal]
pub struct EntryView {
    pub id: int,
    pub text: Seq<char>,
    pub ambiguity_level: Seq<char>,
    pub primary_category: Option<Seq<char>>,
    pub secondary_category: Option<Seq<char>>,
}

/// The text that may be there.
pub open spec fn optional_text(s: Option<String>) -> Option<Seq<char>> {
    match s {
        Some(s) => Some(s@),
        None => None,
    }
}

impl DatasetEntry {
    pub open spec fn view(&self) -> EntryView {
        EntryView {
            id: self.id as int,
            text: self.text@,
            ambiguity_level: self.ambiguity_level@,
            primary_category: optional_text(self.primary_category),
            secondary_category: optional_text(self.secondary_category),
        }
    }
}

/// The views of a list of entries.
pub open spec fn entry_views(v: Seq<DatasetEntry>) -> Seq<EntryView> {
    v.map_values(|e: DatasetEntry| e@)
}

/// The name of the category at a position of the list of categories.
pub open spec fn category(k: u32) -> &'static str {
    match k {
        0 => "technology",
        1 => "food_cooking",
        2 => "sports_fitness",
        3 => "finance_investing",
        _ => "travel_tourism",
    }
}

/// The number of categories.
pub const CATEGORY_COUNT: u32 = 5;

/// The names of the categories.
pub open spec fn category_names() -> Seq<Seq<char>> {
    Seq::new(CATEGORY_COUNT as nat, |k: int| category(k as u32)@)
}

fn category_name(k: u32) -> (r: String)
    ensures
        r@ == category(k)@,
{
    match k {
        0 => "technology".to_owned(),
        1 => "food_cooking".to_owned(),
        2 => "sports_fitness".to_owned(),
        3 => "finance_investing".to_owned(),
        _ => "travel_tourism".to_owned(),
    }
}

/// The categories to choose from.
pub fn categories() -> (r: Vec<String>)
    ensures
        text::texts(r@) == category_names(),
{
    let mut r: Vec<String> = Vec::new();
    for k in 0..CATEGORY_COUNT
        invariant
            r@.len() == k,
            forall|j: int| 0 <= j < k ==> (#[trigger] r@[j])@ == category(j as u32)@,
    {
        r.push(category_name(k));
    }
    assert(text::texts(r@) =~= category_names());
    r
}

/// The number of entries.
pub const ENTRY_COUNT: u32 = 40;

/// The text of entry 1.
pub const TEXT_1: &'static str =
    "The new smartphone features an upgraded octa-core processor and 12GB of RAM for seamless multitasking.";

/// The text of entry 2.
pub const TEXT_2: &'static str =
    "I need to update my operating system because some software applications are crashing on startup.";

/// The text of entry 3.
pub const TEXT_3: &'static str =
    "Cloud computing allows businesses to scale their server infrastructure dynamically based on demand.";

/// The text of entry 4.
pub const TEXT_4: &'static str =
    "Whisk the egg whites until stiff peaks form before gently folding them into the cake batter.";

/// The text of entry 5.
pub const TEXT_5: &'static str =
    "This local Italian restaurant serves authentic wood-fired Neapolitan pizza with fresh basil and mozzarella.";

/// The text of entry 6.
pub const TEXT_6: &'static str =
    "Slow-roasting garlic in olive oil at a low temperature produces a sweet, spreadable paste.";

/// The text of entry 7.
pub const TEXT_7: &'static str =
    "The striker scored a stunning hat-trick in the second half to secure a victory for his team.";

/// The text of entry 8.
pub const TEXT_8: &'static str =
    "Proper hydration and stretching before running a marathon are essential to prevent muscle cramps.";

/// The text of entry 9.
pub const TEXT_9: &'static str =
    "Our local basketball league is looking for new referees to officiate the upcoming weekend games.";

/// The text of entry 10.
pub const TEXT_10: &'static str =
    "Diversifying your investment portfolio across stocks, bonds, and real estate helps mitigate risk.";

/// The text of entry 11.
pub const TEXT_11: &'static str =
    "The central bank decided to raise interest rates to curb rising inflation across the country.";

/// The text of entry 12.
pub const TEXT_12: &'static str =
    "Opening a high-yield savings account is a simple way to earn interest on your emergency fund.";

/// The text of entry 13.
pub const TEXT_13: &'static str =
    "We spent the afternoon exploring the historic ruins of Rome and taking photos of the Colosseum.";

/// The text of entry 14.
pub const TEXT_14: &'static str =
    "Remember to check the visa requirements and passport validity before booking your flights abroad.";

/// The text of entry 15.
pub const TEXT_15: &'static str =
    "The boutique hotel offers stunning ocean views and is located just steps from the sandy beach.";

/// The text of entry 16.
pub const TEXT_16: &'static str =
    "Backpacking through Southeast Asia is an affordable way for students to experience diverse cultures.";

/// The text of entry 17.
pub const TEXT_17: &'static str =
    "This new smart air fryer connects to your home Wi-Fi, allowing you to monitor cooking progress from an app.";

/// The text of entry 18.
pub const TEXT_18: &'static str =
    "I bought a premium smartwatch to track my daily steps, heart rate variability, and GPS routes during morning jogs.";

/// The text of entry 19.
pub const TEXT_19: &'static str =
    "While wandering the streets of Paris, I stumbled upon a tiny bakery serving the most incredible butter croissants.";

/// The text of entry 20.
pub const TEXT_20: &'static str =
    "I used a digital kitchen scale and a specialized molecular gastronomy calculator to measure the sodium alginate for this recipe.";

/// The text of entry 21.
pub const TEXT_21: &'static str =
    "The professional football player signed a multi-million dollar contract extension, making him the highest-paid athlete this season.";

/// The text of entry 22.
pub const TEXT_22: &'static str =
    "The cycling team utilized wind-tunnel data and advanced computational fluid dynamics software to optimize their riding postures.";

/// The text of entry 23.
pub const TEXT_23: &'static str =
    "The sudden surge in cryptocurrency trading caused several online brokerage platforms to experience temporary server outages.";

/// The text of entry 24.
pub const TEXT_24: &'static str =
    "Many digital nomads set up offshore bank accounts to optimize their tax liabilities while moving between different countries.";

/// The text of entry 25.
pub const TEXT_25: &'static str =
    "Budgeting for a year-long trip around the world requires calculating daily accommodation costs and saving thousands in advance.";

/// The text of entry 26.
pub const TEXT_26: &'static str =
    "The culinary tourism package includes guided street food tours and private cooking classes with local chefs in Tokyo.";

/// The text of entry 27.
pub const TEXT_27: &'static str =
    "Rising grain prices and supply chain disruptions are forcing local artisan bakeries to increase the cost of a sourdough loaf.";

/// The text of entry 28.
pub const TEXT_28: &'static str =
    "The software company introduced a new subscription model for its cloud services, aiming to boost recurring software-as-a-service revenues.";

/// The text of entry 29.
pub const TEXT_29: &'static str =
    "Our amateur soccer club is traveling to Spain next month to participate in an international friendly tournament.";

/// The text of entry 30.
pub const TEXT_30: &'static str =
    "Investing in premium sports memorabilia, like game-worn jerseys, has become a highly lucrative alternative asset class.";

/// The text of entry 31.
pub const TEXT_31: &'static str =
    "This article reviews the engineering behind elite running shoes, comparing the energy-return polymer plates with smart embedded pressure sensors.";

/// The text of entry 32.
pub const TEXT_32: &'static str =
    "Mobile banking apps are leveraging decentralized blockchain protocols and biometric authentication to secure financial transactions.";

/// The text of entry 33.
pub const TEXT_33: &'static str =
    "A comprehensive guide to exploring the night markets of Taiwan, focusing on the history of regional street food and how to navigate the crowded stalls.";

/// The text of entry 34.
pub const TEXT_34: &'static str =
    "An analysis of the global coffee bean futures market, discussing how climate change impacts crop yields and the final retail price of espresso.";

/// The text of entry 35.
pub const TEXT_35: &'static str =
    "Hiking the Pacific Crest Trail: A detailed breakdown of the physical conditioning required for high-altitude trekking and the logistics of navigating national parks.";

/// The text of entry 36.
pub const TEXT_36: &'static str =
    "A sports nutritionist's guide to meal prepping, detailing exactly what macro-nutrients to eat before high-intensity interval training to maximize muscle recovery.";

/// The text of entry 37.
pub const TEXT_37: &'static str =
    "Agriculture technology is evolving rapidly, with automated indoor hydroponic systems using AI sensors to deliver nutrients to crops without soil.";

/// The text of entry 38.
pub const TEXT_38: &'static str =
    "Analyzing the economic impact of international tourism on developing island nations, specifically tracking foreign currency exchange and hotel industry revenues.";

/// The text of entry 39.
pub const TEXT_39: &'static str =
    "The chemical structure of DNA consists of two long chains of nucleotides twisted into a double helix.";

/// The text of entry 40.
pub const TEXT_40: &'static str =
    "William Shakespeare's tragedy 'Hamlet' explores themes of revenge, madness, and moral corruption in the Danish court.";

/// The text of an entry.
pub open spec fn entry_text(id: u32) -> &'static str {
    match id {
        1 => TEXT_1,
        2 => TEXT_2,
        3 => TEXT_3,
        4 => TEXT_4,
        5 => TEXT_5,
        6 => TEXT_6,
        7 => TEXT_7,
        8 => TEXT_8,
        9 => TEXT_9,
        10 => TEXT_10,
        11 => TEXT_11,
        12 => TEXT_12,
        13 => TEXT_13,
        14 => TEXT_14,
        15 => TEXT_15,
        16 => TEXT_16,
        17 => TEXT_17,
        18 => TEXT_18,
        19 => TEXT_19,
        20 => TEXT_20,
        21 => TEXT_21,
        22 => TEXT_22,
        23 => TEXT_23,
        24 => TEXT_24,
        25 => TEXT_25,
        26 => TEXT_26,
        27 => TEXT_27,
        28 => TEXT_28,
        29 => TEXT_29,
        30 => TEXT_30,
        31 => TEXT_31,
        32 => TEXT_32,
        33 => TEXT_33,
        34 => TEXT_34,
        35 => TEXT_35,
        36 => TEXT_36,
        37 => TEXT_37,
        38 => TEXT_38,
        39 => TEXT_39,
        _ => TEXT_40,
    }
}

fn text_of_entry(id: u32) -> (r: String)
    ensures
        r@ == entry_text(id)@,
{
    let r = match id {
        1 => TEXT_1,
        2 => TEXT_2,
        3 => TEXT_3,
        4 => TEXT_4,
        5 => TEXT_5,
        6 => TEXT_6,
        7 => TEXT_7,
        8 => TEXT_8,
        9 => TEXT_9,
        10 => TEXT_10,
        11 => TEXT_11,
        12 => TEXT_12,
        13 => TEXT_13,
        14 => TEXT_14,
        15 => TEXT_15,
        16 => TEXT_16,
        17 => TEXT_17,
        18 => TEXT_18,
        19 => TEXT_19,
        20 => TEXT_20,
        21 => TEXT_21,
        22 => TEXT_22,
        23 => TEXT_23,
        24 => TEXT_24,
        25 => TEXT_25,
        26 => TEXT_26,
        27 => TEXT_27,
        28 => TEXT_28,
        29 => TEXT_29,
        30 => TEXT_30,
        31 => TEXT_31,
        32 => TEXT_32,
        33 => TEXT_33,
        34 => TEXT_34,
        35 => TEXT_35,
        36 => TEXT_36,
        37 => TEXT_37,
        38 => TEXT_38,
        39 => TEXT_39,
        _ => TEXT_40,
    };
    r.to_owned()
}

/// How clearly the text of an entry belongs to a category.
pub open spec fn entry_level(id: u32) -> &'static str {
    if id <= 16 {
        "clear"
    } else if id <= 30 {
        "mildly_ambiguous"
    } else if id <= 38 {
        "highly_ambiguous"
    } else {
        "out_of_scope"
    }
}

fn level_of_entry(id: u32) -> (r: String)
    ensures
        r@ == entry_level(id)@,
{
    if id <= 16 {
        "clear".to_owned()
    } else if id <= 30 {
        "mildly_ambiguous".to_owned()
    } else if id <= 38 {
        "highly_ambiguous".to_owned()
    } else {
        "out_of_scope".to_owned()
    }
}

/// The category that the text of an entry belongs to first.
pub open spec fn primary(id: u32) -> Option<u32> {
    match id {
        1 | 2 | 3 | 17 | 18 | 28 | 31 | 32 | 37 => Some(0),
        4 | 5 | 6 | 19 | 20 | 27 | 33 | 34 => Some(1),
        7 | 8 | 9 | 21 | 22 | 29 | 35 | 36 => Some(2),
        10 | 11 | 12 | 23 | 24 | 30 | 38 => Some(3),
        13 | 14 | 15 | 16 | 25 | 26 => Some(4),
        _ => None,
    }
}

fn primary_of(id: u32) -> (r: Option<u32>)
    ensures
        r == primary(id),
{
    match id {
        1 | 2 | 3 | 17 | 18 | 28 | 31 | 32 | 37 => Some(0),
        4 | 5 | 6 | 19 | 20 | 27 | 33 | 34 => Some(1),
        7 | 8 | 9 | 21 | 22 | 29 | 35 | 36 => Some(2),
        10 | 11 | 12 | 23 | 24 | 30 | 38 => Some(3),
        13 | 14 | 15 | 16 | 25 | 26 => Some(4),
        _ => None,
    }
}

/// The category that the text of an entry belongs to second.
pub open spec fn secondary(id: u32) -> Option<u32> {
    match id {
        20 | 22 | 23 => Some(0),
        17 | 26 | 36 | 37 => Some(1),
        18 | 30 | 31 => Some(2),
        21 | 25 | 27 | 28 | 32 | 34 => Some(3),
        19 | 24 | 29 | 33 | 35 | 38 => Some(4),
        _ => None,
    }
}

fn secondary_of(id: u32) -> (r: Option<u32>)
    ensures
        r == secondary(id),
{
    match id {
        20 | 22 | 23 => Some(0),
        17 | 26 | 36 | 37 => Some(1),
        18 | 30 | 31 => Some(2),
        21 | 25 | 27 | 28 | 32 | 34 => Some(3),
        19 | 24 | 29 | 33 | 35 | 38 => Some(4),
        _ => None,
    }
}

/// The name of a category that may be there.
pub open spec fn optional_category(k: Option<u32>) -> Option<Seq<char>> {
    match k {
        Some(k) => Some(category(k)@),
        None => None,
    }
}

fn optional_category_name(k: Option<u32>) -> (r: Option<String>)
    ensures
        optional_text(r) == optional_category(k),
{
    match k {
        Some(k) => Some(category_name(k)),
        None => None,
    }
}

/// The entry with an id.
pub open spec fn entry(id: u32) -> EntryView {
    EntryView {
        id: id as int,
        text: entry_text(id)@,
        ambiguity_level: entry_level(id)@,
        primary_category: optional_category(primary(id)),
        secondary_category: optional_category(secondary(id)),
    }
}

/// The entries, with the ids from one up.
pub fn dataset() -> (r: Vec<DatasetEntry>)
    ensures
        entry_views(r@) == Seq::new(ENTRY_COUNT as nat, |i: int| entry((i + 1) as u32)),
{
    let mut r: Vec<DatasetEntry> = Vec::new();
    for i in 0..ENTRY_COUNT
        invariant
            r@.len() == i,
            forall|j: int| 0 <= j < i ==> (#[trigger] r@[j])@ == entry((j + 1) as u32),
    {
        let id: u32 = i + 1;
        r.push(
            DatasetEntry {
                id,
                text: text_of_entry(id),
                ambiguity_level: level_of_entry(id),
                primary_category: optional_category_name(primary_of(id)),
                secondary_category: optional_category_name(secondary_of(id)),
            },
        );
    }
    assert(entry_views(r@) =~= Seq::new(ENTRY_COUNT as nat, |i: int| entry((i + 1) as u32)));
    r
}

/// An entry has its id, its text and its level, and its categories by name; a
/// category that it does not have is none.
pub proof fn law_entry_is_what_is_listed(id: u32)
    ensures
        entry(id).id == id,
        entry(id).text == entry_text(id)@,
        entry(id).ambiguity_level == entry_level(id)@,
        primary(id) matches Some(k) ==> entry(id).primary_category == Some(category(k)@),
        primary(id) is None ==> entry(id).primary_category is None,
        secondary(id) matches Some(k) ==> entry(id).secondary_category == Some(category(k)@),
        secondary(id) is None ==> entry(id).secondary_category is None,
        category_names().len() == CATEGORY_COUNT,
{
}

/// Every category of an entry is one of the categories to choose from. Only
/// what is out of scope has none, what is clear has one, and what is ambiguous
/// has two that differ.
pub proof fn law_dataset_is_consistent(id: u32)
    requires
        1 <= id <= ENTRY_COUNT,
    ensures
        primary(id) matches Some(k) ==> category_names().contains(category(k)@),
        secondary(id) matches Some(k) ==> category_names().contains(category(k)@),
        primary(id) is None <==> entry_level(id)@ == "out_of_scope"@,
        secondary(id) is Some <==> entry_level(id)@ == "mildly_ambiguous"@ || entry_level(id)@
            == "highly_ambiguous"@,
        secondary(id) is Some ==> primary(id) is Some && primary(id) != secondary(id),
{
    if let Some(k) = primary(id) {
        assert(category_names()[k as int] == category(k)@);
    }
    if let Some(k) = secondary(id) {
        assert(category_names()[k as int] == category(k)@);
    }
    reveal_strlit("clear");
    reveal_strlit("mildly_ambiguous");
    reveal_strlit("highly_ambiguous");
    reveal_strlit("out_of_scope");
    assert("clear"@.len() == 5);
    assert("mildly_ambiguous"@.len() == 16);
    assert("highly_ambiguous"@.len() == 16);
    assert("out_of_scope"@.len() == 12);
}

// ---------------------------------------------------------------------------
// Table
// ---------------------------------------------------------------------------

/// The "none of the above" choice appended so that a model can reject all
/// categories.
pub const NONE_CHOICE: &'static str = "none_of_the_above";

/// The choices presented to a classifier: the categories and the rejection of
/// all of them.
pub fn choices_with_none(cats: &[String]) -> (r: Vec<String>)
    ensures
        text::texts(r@) == text::texts(cats@).push(NONE_CHOICE@),
{
    let mut r = text::copy_texts(cats);
    r.push(NONE_CHOICE.to_owned());
    assert(text::texts(r@) =~= text::texts(cats@).push(NONE_CHOICE@));
    r
}

/// A text with every quote doubled.
pub open spec fn doubled_quotes(s: Seq<char>) -> Seq<char>
    decreases s.len(),
{
    if s.len() == 0 {
        Seq::empty()
    } else {
        let before = doubled_quotes(s.drop_last());
        if s.last() == '"' {
            before.push('"').push('"')
        } else {
            before.push(s.last())
        }
    }
}

/// A text as a quoted field of a table.
pub open spec fn quoted(s: Seq<char>) -> Seq<char> {
    seq!['"'] + doubled_quotes(s) + seq!['"']
}

/// A text as a quoted field of a table.
pub fn csv_quote(s: &str) -> (r: String)
    ensures
        r@ == quoted(s@),
{
    let mut r = String::new();
    r.push('"');
    assert(r@ =~= seq!['"'] + doubled_quotes(s@.take(0)));
    for c in it: s.chars()
        invariant
            it.seq() == s@,
            r@ == seq!['"'] + doubled_quotes(s@.take(it.index() as int)),
    {
        assert(s@.take(it.index() + 1).drop_last() =~= s@.take(it.index() as int));
        if c == '"' {
            r.push('"');
        }
        r.push(c);
        assert(r@ =~= seq!['"'] + doubled_quotes(s@.take(it.index() + 1)));
    }
    assert(s@.take(s@.len() as int) =~= s@);
    r.push('"');
    assert(r@ =~= quoted(s@));
    r
}

/// Reads the rest of a quoted field, behind its first quote: the text of the
/// field, and what stands behind it. There is none where the field does not
/// end.
pub open spec fn read_quoted(t: Seq<char>) -> Option<(Seq<char>, Seq<char>)>
    decreases t.len(),
{
    if t.len() == 0 {
        None
    } else if t[0] != '"' {
        match read_quoted(t.skip(1)) {
            Some((s, rest)) => Some((seq![t[0]] + s, rest)),
            None => None,
        }
    } else if t.len() > 1 && t[1] == '"' {
        match read_quoted(t.skip(2)) {
            Some((s, rest)) => Some((seq!['"'] + s, rest)),
            None => None,
        }
    } else {
        Some((Seq::empty(), t.skip(1)))
    }
}

/// A quoted field reads back as its text, and ends where it should: what
/// follows it is not taken for a part of it.
pub proof fn law_quoted_field_reads_back(s: Seq<char>, rest: Seq<char>)
    requires
        rest.len() > 0 ==> rest[0] != '"',
    ensures
        quoted(s)[0] == '"',
        read_quoted((quoted(s) + rest).skip(1)) == Some((s, rest)),
{
    let tail = seq!['"'] + rest;
    lemma_read_quoted(s, tail);
    assert((quoted(s) + rest).skip(1) =~= doubled_quotes(s) + tail);
    assert(tail.skip(1) =~= rest);
    assert(s + Seq::<char>::empty() =~= s);
}

/// Reading doubled quotes, followed by more, gives the text and what the rest
/// gives.
proof fn lemma_read_quoted(s: Seq<char>, tail: Seq<char>)
    ensures
        read_quoted(doubled_quotes(s) + tail) == match read_quoted(tail) {
            Some((r, rest)) => Some((s + r, rest)),
            None => None,
        },
    decreases s.len(),
{
    if s.len() == 0 {
        assert(doubled_quotes(s) + tail =~= tail);
        match read_quoted(tail) {
            Some((r, rest)) => assert(s + r =~= r),
            None => {},
        }
    } else {
        let head = s.drop_last();
        let last = s.last();
        let longer = if last == '"' {
            seq!['"', '"'] + tail
        } else {
            seq![last] + tail
        };
        lemma_read_quoted(head, longer);
        assert(doubled_quotes(s) + tail =~= doubled_quotes(head) + longer);
        if last == '"' {
            assert(longer.skip(2) =~= tail);
        } else {
            assert(longer.skip(1) =~= tail);
        }
        match read_quoted(tail) {
            Some((r, rest)) => assert(head + (seq![last] + r) =~= s + r),
            None => {},
        }
    }
}

/// The names of the columns.
pub open spec fn column_names(cats: Seq<Seq<char>>) -> Seq<Seq<char>> {
    seq![
        "id"@,
        "text"@,
        "ambiguity_level"@,
        "primary_category"@,
        "secondary_category"@,
        "backend"@,
        "llm"@,
        "api"@,
        "prediction"@,
        "confidence"@,
    ] + cats.map_values(|c: Seq<char>| "prob_"@ + c) + seq!["prob_none"@]
}

/// The first line of the table.
pub fn csv_header(cats: &[String]) -> (r: String)
    ensures
        r@ == text::join(column_names(text::texts(cats@)), ","@),
{
    let mut names: Vec<String> = Vec::new();
    names.push("id".to_owned());
    names.push("text".to_owned());
    names.push("ambiguity_level".to_owned());
    names.push("primary_category".to_owned());
    names.push("secondary_category".to_owned());
    names.push("backend".to_owned());
    names.push("llm".to_owned());
    names.push("api".to_owned());
    names.push("prediction".to_owned());
    names.push("confidence".to_owned());
    let ghost fixed = names@;
    let n: usize = cats.len();
    for i in 0..n
        invariant
            n == cats@.len(),
            fixed.len() == 10,
            names@.len() == 10 + i,
            forall|j: int| 0 <= j < 10 ==> #[trigger] names@[j] == fixed[j],
            forall|j: int| 10 <= j < 10 + i ==> (#[trigger] names@[j])@ == "prob_"@ + cats@[j - 10]@,
    {
        let mut name = "prob_".to_owned();
        name.append(cats[i].as_str());
        names.push(name);
    }
    names.push("prob_none".to_owned());
    assert(text::texts(names@) =~= column_names(text::texts(cats@)));
    text::join_texts(names.as_slice(), ",")
}

/// The probability of a label; zero where it has none.
pub open spec fn probability_of(probabilities: Map<Seq<char>, Scalar>, label: Seq<char>) -> Scalar {
    if probabilities.contains_key(label) {
        probabilities[label]
    } else {
        Scalar { bits: 0 }
    }
}

/// The probabilities of a row, in the order of the columns: those of the
/// categories, and that of none of them.
pub fn row_probabilities(probabilities: &LabelMap<Scalar>, cats: &[String]) -> (r: Vec<Scalar>)
    ensures
        r@ == text::texts(cats@).push(NONE_CHOICE@).map_values(
            |c: Seq<char>| probability_of(probabilities@, c),
        ),
{
    let columns = choices_with_none(cats);
    let mut r: Vec<Scalar> = Vec::new();
    let n: usize = columns.len();
    for i in 0..n
        invariant
            n == columns@.len(),
            r@.len() == i,
            forall|j: int|
                0 <= j < i ==> #[trigger] r@[j] == probability_of(
                    probabilities@,
                    text::texts(columns@)[j],
                ),
    {
        let p = match probabilities.get(columns[i].as_str()) {
            Some(p) => *p,
            None => Scalar { bits: 0 },
        };
        r.push(p);
    }
    assert(text::texts(columns@).len() == n);
    assert(r@ =~= text::texts(columns@).map_values(
        |c: Seq<char>| probability_of(probabilities@, c),
    ));
    r
}

/// The text that may be there; no text where it is not.
pub open spec fn text_or_none(s: Option<Seq<char>>) -> Seq<char> {
    match s {
        Some(s) => s,
        None => Seq::empty(),
    }
}

/// The fields of a row.
pub open spec fn row_fields(
    e: EntryView,
    backend_name: Seq<char>,
    llm_name: Seq<char>,
    api_name: Seq<char>,
    prediction: Seq<char>,
    numbers: Seq<Seq<char>>,
) -> Seq<Seq<char>> {
    seq![
        text::decimal(e.id as nat),
        quoted(e.text),
        e.ambiguity_level,
        text_or_none(e.primary_category),
        text_or_none(e.secondary_category),
        backend_name,
        llm_name,
        api_name,
        prediction,
    ] + numbers
}

fn copy_or_none(s: &Option<String>) -> (r: String)
    ensures
        r@ == text_or_none(optional_text(*s)),
{
    match s {
        Some(s) => s.clone(),
        None => {
            let r = String::new();
            assert(r@ =~= Seq::<char>::empty());
            r
        },
    }
}

/// A line of the table: what was classified, by what, and the outcome, with
/// the confidence and the probabilities as they are to be written.
pub fn csv_row(
    entry: &DatasetEntry,
    backend_name: &str,
    llm_name: &str,
    api_name: &str,
    prediction: &str,
    numbers: &[String],
) -> (r: String)
    ensures
        r@ == text::join(
            row_fields(
                entry@,
                backend_name@,
                llm_name@,
                api_name@,
                prediction@,
                text::texts(numbers@),
            ),
            ","@,
        ),
{
    let mut fields: Vec<String> = Vec::new();
    fields.push(text::decimal_text(entry.id as u64));
    fields.push(csv_quote(entry.text.as_str()));
    fields.push(entry.ambiguity_level.clone());
    fields.push(copy_or_none(&entry.primary_category));
    fields.push(copy_or_none(&entry.secondary_category));
    fields.push(backend_name.to_owned());
    fields.push(llm_name.to_owned());
    fields.push(api_name.to_owned());
    fields.push(prediction.to_owned());
    let mut written = text::copy_texts(numbers);
    fields.append(&mut written);
    assert(text::texts(fields@) =~= row_fields(
        entry@,
        backend_name@,
        llm_name@,
        api_name@,
        prediction@,
        text::texts(numbers@),
    ));
    text::join_texts(fields.as_slice(), ",")
}

// ---------------------------------------------------------------------------
// File names
// ---------------------------------------------------------------------------

/// A date as `YYYYMMDD`.
pub open spec fn date_text(year: int, month: int, day: int) -> Seq<char> {
    text::padded(year as nat, 4) + text::padded(month as nat, 2) + text::padded(day as nat, 2)
}

/// A time of day, in seconds after midnight, as `hhmmss`.
pub open spec fn time_text(secs: nat) -> Seq<char> {
    text::padded(secs / 3600, 2) + text::padded((secs % 3600) / 60, 2) + text::padded(secs % 60, 2)
}

/// Whether `stamp` is the moment `secs` seconds after 1970-01-01 as
/// `YYYYMMDDhhmmss`.
pub open spec fn is_timestamp(stamp: Seq<char>, secs: nat) -> bool {
    exists|year: int, month: int, day: int| #[trigger]
        dates::is_date(year, month, day) && dates::day_number(year, month, day) == secs / 86400
            && stamp == date_text(year, month, day) + time_text(secs % 86400)
}

/// A date as `YYYYMMDD`.
fn write_date(year: u64, month: u64, day: u64) -> (r: String)
    ensures
        r@ == date_text(year as int, month as int, day as int),
{
    let mut r = text::padded_text(year, 4);
    r.append(text::padded_text(month, 2).as_str());
    r.append(text::padded_text(day, 2).as_str());
    r
}

/// A time of day as `hhmmss`.
fn write_time(secs: u64) -> (r: String)
    ensures
        r@ == time_text(secs as nat),
{
    let mut r = text::padded_text(secs / 3600, 2);
    r.append(text::padded_text((secs % 3600) / 60, 2).as_str());
    r.append(text::padded_text(secs % 60, 2).as_str());
    r
}

/// A moment, given in seconds after 1970-01-01, as `YYYYMMDDhhmmss`.
pub fn timestamp(secs: u64) -> (r: String)
    ensures
        is_timestamp(r@, secs as nat),
{
    let days: u64 = secs / 86400;
    let (year, month, day) = days_to_ymd(days as i64);
    proof {
        dates::lemma_after_epoch(year as int, month as int, day as int);
    }
    let mut r = write_date(year as u64, month as u64, day as u64);
    r.append(write_time(secs % 86400).as_str());
    assert(dates::is_date(year as int, month as int, day as int));
    r
}

/// A moment has one timestamp.
pub proof fn law_timestamp_is_unique(a: Seq<char>, b: Seq<char>, secs: nat)
    requires
        is_timestamp(a, secs),
        is_timestamp(b, secs),
    ensures
        a == b,
{
    let (y1, m1, d1) = choose|year: int, month: int, day: int| #[trigger]
        dates::is_date(year, month, day) && dates::day_number(year, month, day) == secs / 86400 && a
            == date_text(year, month, day) + time_text(secs % 86400);
    let (y2, m2, d2) = choose|year: int, month: int, day: int| #[trigger]
        dates::is_date(year, month, day) && dates::day_number(year, month, day) == secs / 86400 && b
            == date_text(year, month, day) + time_text(secs % 86400);
    dates::law_day_number_is_unique(y1, m1, d1, y2, m2, d2);
}

/// The name of the file that an evaluation is written to.
pub fn csv_path(backend_name: &str, stamp: &str) -> (r: String)
    ensures
        r@ == backend_name@ + "_"@ + stamp@ + ".csv"@,
{
    let mut r = backend_name.to_owned();
    r.append("_");
    r.append(stamp);
    r.append(".csv");
    r
}

// ---------------------------------------------------------------------------
// Laws of the table
// ---------------------------------------------------------------------------

/// A row has as many fields as the table has columns, where it has a confidence
/// and a probability for each category and for none of them. Under its name
/// stands each of: the id, the text, how ambiguous it is, its categories, the
/// backend, the model, the kind of call, the prediction, the confidence, and the
/// probabilities in the order of the categories.
pub proof fn law_row_stands_under_the_header(
    e: EntryView,
    backend_name: Seq<char>,
    llm_name: Seq<char>,
    api_name: Seq<char>,
    prediction: Seq<char>,
    numbers: Seq<Seq<char>>,
    cats: Seq<Seq<char>>,
    i: int,
)
    requires
        e.id >= 0,
        numbers.len() == cats.len() + 2,
        0 <= i < cats.len(),
    ensures
        ({
            let names = column_names(cats);
            let fields = row_fields(e, backend_name, llm_name, api_name, prediction, numbers);
            &&& fields.len() == names.len()
            &&& names[0] == "id"@ && text::decimal_value(fields[0]) == e.id
            &&& names[1] == "text"@ && fields[1] == quoted(e.text)
            &&& names[2] == "ambiguity_level"@ && fields[2] == e.ambiguity_level
            &&& names[3] == "primary_category"@ && (e.primary_category matches Some(s)
                ==> fields[3] == s) && (e.primary_category is None ==> fields[3].len() == 0)
            &&& names[4] == "secondary_category"@ && (e.secondary_category matches Some(s)
                ==> fields[4] == s) && (e.secondary_category is None ==> fields[4].len() == 0)
            &&& names[5] == "backend"@ && fields[5] == backend_name
            &&& names[6] == "llm"@ && fields[6] == llm_name
            &&& names[7] == "api"@ && fields[7] == api_name
            &&& names[8] == "prediction"@ && fields[8] == prediction
            &&& names[9] == "confidence"@ && fields[9] == numbers[0]
            &&& names[10 + i] == "prob_"@ + cats[i] && fields[10 + i] == numbers[1 + i]
            &&& names.last() == "prob_none"@ && fields.last() == numbers.last()
        }),
{
    text::law_decimal_reads_back(e.id as nat);
    let names = column_names(cats);
    let fields = row_fields(e, backend_name, llm_name, api_name, prediction, numbers);
    assert(names.len() == 11 + cats.len());
    assert(fields.len() == 9 + numbers.len());
    assert(names[0] == "id"@ && names[1] == "text"@ && names[2] == "ambiguity_level"@);
    assert(names[3] == "primary_category"@ && names[4] == "secondary_category"@);
    assert(names[5] == "backend"@ && names[6] == "llm"@ && names[7] == "api"@);
    assert(names[8] == "prediction"@ && names[9] == "confidence"@);
    assert(names[10 + i] == "prob_"@ + cats[i]);
    assert(names[10 + cats.len() as int] == "prob_none"@);
    assert(fields[0] == text::decimal(e.id as nat) && fields[1] == quoted(e.text));
    assert(fields[2] == e.ambiguity_level && fields[3] == text_or_none(e.primary_category));
    assert(fields[4] == text_or_none(e.secondary_category) && fields[5] == backend_name);
    assert(fields[6] == llm_name && fields[7] == api_name && fields[8] == prediction);
    assert(fields[9] == numbers[0]);
    assert(fields[10 + i] == numbers[1 + i]);
    assert(fields[fields.len() - 1] == numbers[numbers.len() - 1]);
}

/// A label has the probability that it was given, and zero where it was given
/// none.
pub proof fn law_missing_probability_is_zero(
    probabilities: Map<Seq<char>, Scalar>,
    label: Seq<char>,
)
    ensures
        probabilities.contains_key(label) ==> probability_of(probabilities, label)
            == probabilities[label],
        !probabilities.contains_key(label) ==> probability_of(probabilities, label).bits == 0,
{
}

/// A date of four-digit years is eight digits: four of the year, two of the
/// month and two of the day.
pub proof fn law_date_reads_back(year: int, month: int, day: int)
    requires
        0 <= year < 10000,
        dates::is_date(year, month, day),
    ensures
        date_text(year, month, day).len() == 8,
        text::decimal_value(date_text(year, month, day).subrange(0, 4)) == year,
        text::decimal_value(date_text(year, month, day).subrange(4, 6)) == month,
        text::decimal_value(date_text(year, month, day).subrange(6, 8)) == day,
{
    text::law_padded_reads_back(year as nat, 4);
    text::law_padded_reads_back(month as nat, 2);
    text::law_padded_reads_back(day as nat, 2);
    text::law_decimal_of_small_number(year as nat);
    text::law_decimal_of_small_number(month as nat);
    text::law_decimal_of_small_number(day as nat);
    let s = date_text(year, month, day);
    assert(s.subrange(0, 4) =~= text::padded(year as nat, 4));
    assert(s.subrange(4, 6) =~= text::padded(month as nat, 2));
    assert(s.subrange(6, 8) =~= text::padded(day as nat, 2));
}

/// A time of day is six digits: two of the hour, two of the minute and two of
/// the second, which together make up the seconds after midnight.
pub proof fn law_time_reads_back(secs: nat)
    requires
        secs < 86400,
    ensures
        time_text(secs).len() == 6,
        ({
            let hour = text::decimal_value(time_text(secs).subrange(0, 2));
            let minute = text::decimal_value(time_text(secs).subrange(2, 4));
            let second = text::decimal_value(time_text(secs).subrange(4, 6));
            &&& 0 <= hour < 24 && 0 <= minute < 60 && 0 <= second < 60
            &&& hour * 3600 + minute * 60 + second == secs
        }),
{
    let h = secs / 3600;
    let m = (secs % 3600) / 60;
    let x = secs % 60;
    text::law_padded_reads_back(h, 2);
    text::law_padded_reads_back(m, 2);
    text::law_padded_reads_back(x, 2);
    text::law_decimal_of_small_number(h);
    text::law_decimal_of_small_number(m);
    text::law_decimal_of_small_number(x);
    let s = time_text(secs);
    assert(s.subrange(0, 2) =~= text::padded(h, 2));
    assert(s.subrange(2, 4) =~= text::padded(m, 2));
    assert(s.subrange(4, 6) =~= text::padded(x, 2));
}

/// The digits of a timestamp give a date and a time of day, and these are the
/// moment that the timestamp is of.
pub proof fn law_timestamp_reads_back(stamp: Seq<char>, secs: nat)
    requires
        is_timestamp(stamp, secs),
        secs / 86400 < dates::day_number(10000, 1, 1),
    ensures
        stamp.len() == 14,
        ({
            let year = text::decimal_value(stamp.subrange(0, 4));
            let month = text::decimal_value(stamp.subrange(4, 6));
            let day = text::decimal_value(stamp.subrange(6, 8));
            let hour = text::decimal_value(stamp.subrange(8, 10));
            let minute = text::decimal_value(stamp.subrange(10, 12));
            let second = text::decimal_value(stamp.subrange(12, 14));
            &&& dates::is_date(year, month, day)
            &&& 0 <= hour < 24 && 0 <= minute < 60 && 0 <= second < 60
            &&& dates::day_number(year, month, day) * 86400 + hour * 3600 + minute * 60 + second
                == secs
        }),
{
    let (year, month, day) = choose|year: int, month: int, day: int| #[trigger]
        dates::is_date(year, month, day) && dates::day_number(year, month, day) == secs / 86400
            && stamp == date_text(year, month, day) + time_text(secs % 86400);
    dates::lemma_after_epoch(year, month, day);
    dates::lemma_before_year(year, month, day, 10000);
    law_date_reads_back(year, month, day);
    law_time_reads_back(secs % 86400);
    let d = date_text(year, month, day);
    let t = time_text(secs % 86400);
    assert(stamp.subrange(0, 4) =~= d.subrange(0, 4));
    assert(stamp.subrange(4, 6) =~= d.subrange(4, 6));
    assert(stamp.subrange(6, 8) =~= d.subrange(6, 8));
    assert(stamp.subrange(8, 10) =~= t.subrange(0, 2));
    assert(stamp.subrange(10, 12) =~= t.subrange(2, 4));
    assert(stamp.subrange(12, 14) =~= t.subrange(4, 6));
}

// ---------------------------------------------------------------------------
// Checks of a result
// ---------------------------------------------------------------------------

/// What a result is expected to be.
#[derive(Debug)]
pub struct Expectation {
    /// The choices that were offered.
    pub choices: Vec<String>,
    /// How the result is produced.
    pub method: String,
    /// The predictions that are right; any choice is where there are none.
    pub accepted: Vec<String>,
    /// The least and the most calls, where they are known.
    pub calls: Option<(i64, i64)>,
    /// Whether every label is to be scored whole.
    pub exact: bool,
}

/// What is wrong with a result.
#[derive(Debug, Clone, Copy, PartialEq, Eq, Structural)]
pub struct ResultFaults {
    /// The result was produced in another way than expected.
    pub method: bool,
    /// The prediction is none of the choices.
    pub prediction: bool,
    /// The confidence is not between zero and one.
    pub confidence: bool,
    /// The labels with a probability are not exactly the choices.
    pub labels: bool,
    /// The prediction is none of those that are right.
    pub answer: bool,
    /// There were too few or too many calls.
    pub calls: bool,
    /// The result is approximate, and was not to be.
    pub approximate: bool,
}

/// Whether a list holds a text.
fn holds(v: &[String], wanted: &String) -> (r: bool)
    ensures
        r == text::texts(v@).contains(wanted@),
{
    let n: usize = v.len();
    for i in 0..n
        invariant
            n == v@.len(),
            forall|j: int| 0 <= j < i ==> #[trigger] text::texts(v@)[j] != wanted@,
    {
        if v[i] == *wanted {
            assert(text::texts(v@)[i as int] == wanted@);
            return true;
        }
    }
    false
}

/// Whether the labels with a probability are exactly the choices.
fn labels_differ(result: &ClassificationResult, choices: &[String]) -> (r: bool)
    ensures
        r == !(forall|l: Seq<char>| #[trigger]
            result.probabilities@.contains_key(l) <==> text::texts(choices@).contains(l)),
{
    let mut wrong_labels = false;
    let ghost names = text::texts(choices@);
    let n: usize = choices.len();
    for i in 0..n
        invariant
            n == choices@.len(),
            names == text::texts(choices@),
            wrong_labels ==> exists|l: Seq<char>| #[trigger]
                result.probabilities@.contains_key(l) != names.contains(l),
            !wrong_labels ==> forall|j: int|
                0 <= j < i ==> result.probabilities@.contains_key(#[trigger] names[j]),
    {
        assert(names[i as int] == choices@[i as int]@);
        if !result.probabilities.contains_key(choices[i].as_str()) {
            wrong_labels = true;
            assert(names.contains(names[i as int]));
            assert(result.probabilities@.contains_key(names[i as int]) != names.contains(
                names[i as int],
            ));
        }
    }
    let m: usize = result.probabilities.len();
    let ghost keys = result.probabilities.keys();
    for i in 0..m
        invariant
            m == keys.len(),
            keys == result.probabilities.keys(),
            names == text::texts(choices@),
            n == names.len(),
            wrong_labels ==> exists|l: Seq<char>| #[trigger]
                result.probabilities@.contains_key(l) != names.contains(l),
            !wrong_labels ==> forall|j: int|
                0 <= j < n ==> result.probabilities@.contains_key(#[trigger] names[j]),
            !wrong_labels ==> forall|j: int| 0 <= j < i ==> names.contains(#[trigger] keys[j]),
    {
        if !holds(choices, result.probabilities.key_at(i)) {
            wrong_labels = true;
            assert(keys.contains(keys[i as int]));
            assert(result.probabilities@.contains_key(keys[i as int]) != names.contains(
                keys[i as int],
            ));
        }
    }
    proof {
        if !wrong_labels {
            assert forall|l: Seq<char>| #[trigger]
                result.probabilities@.contains_key(l) <==> names.contains(l) by {
                if names.contains(l) {
                    assert(names[names.index_of(l)] == l);
                }
                if keys.contains(l) {
                    assert(keys[keys.index_of(l)] == l);
                }
            }
        }
    }
    wrong_labels
}

/// Compares a result with what it is expected to be.
pub fn check_result(result: &ClassificationResult, expected: &Expectation) -> (r: ResultFaults)
    ensures
        r.method == (result.method@ != expected.method@),
        r.prediction == !text::texts(expected.choices@).contains(result.prediction@),
        r.confidence == !(!result.confidence.is_nan() && Scalar::zero().rank()
            <= result.confidence.rank() <= Scalar::one().rank()),
        r.labels == !(forall|l: Seq<char>| #[trigger]
            result.probabilities@.contains_key(l) <==> text::texts(expected.choices@).contains(l)),
        r.answer == (expected.accepted@.len() > 0 && !text::texts(expected.accepted@).contains(
            result.prediction@,
        )),
        r.calls == match expected.calls {
            Some((least, most)) => !(least <= result.n_calls <= most),
            None => false,
        },
        r.approximate == (expected.exact && result.approximate),
{
    ResultFaults {
        method: result.method != expected.method,
        prediction: !holds(expected.choices.as_slice(), &result.prediction),
        confidence: !result.confidence.is_share(),
        labels: labels_differ(result, expected.choices.as_slice()),
        answer: expected.accepted.len() > 0 && !holds(
            expected.accepted.as_slice(),
            &result.prediction,
        ),
        calls: match expected.calls {
            Some((least, most)) => result.n_calls < least || result.n_calls > most,
            None => false,
        },
        approximate: expected.exact && result.approximate,
    }
}

} // verus!
