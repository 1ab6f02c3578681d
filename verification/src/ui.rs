//! The decisions of the window front end: its two languages and their
//! texts, the colour themes, paging through results, the search form and
//! the settings files.
use vstd::prelude::*;
use crate::cli::date_point;
use crate::date::{Timestamp, is_earlier, parse_date};
use crate::search::{
    Config, folder_candidates_spec, keep_flagged, opt_view, parse_extensions,
    parse_extensions_spec, parse_folders,
};
use crate::paths::path_join;
use crate::text::{
    chars_of, decimal, has_prefix, push_decimal, same_text, split, split_ranges, strings_view,
    trim, trim_bounds,
};

verus! {

// ---------------------------------------------------------------------------
// Languages.

/// The languages of the window.
#[derive(Debug, Clone, Copy, PartialEq, Eq, Structural)]
pub enum Language {
    En,
    Cs,
}

/// The text of `lang` among an English and a Czech one.
pub open spec fn pick(lang: Language, en: Seq<char>, cs: Seq<char>) -> Seq<char> {
    match lang {
        Language::En => en,
        Language::Cs => cs,
    }
}

/// Why the search form cannot be searched.
#[derive(Debug, Clone, Copy, PartialEq, Eq, Structural)]
pub enum ValidationError {
    MissingFolder,
    MissingExtension,
    InvalidDate,
    InvalidDateRange,
}

/// The text that tells how many files were found.
pub open spec fn found_files_text(lang: Language, count: nat) -> Seq<char> {
    pick(lang, "Files found: "@, "Nalezeno souboru: "@) + decimal(count)
}

/// The text that tells which page is shown.
pub open spec fn page_text(lang: Language, current: nat, total: nat) -> Seq<char> {
    pick(lang, "Page "@, "Strana "@) + decimal(current) + " / "@ + decimal(total)
}

impl Language {
    /// The code saved in the settings.
    pub fn code(self) -> (r: &'static str)
        ensures
            r@ == pick(self, "en"@, "cs"@),
    {
        match self {
            Language::En => "en",
            Language::Cs => "cs",
        }
    }

    /// The language of a saved code: Czech for `cs` (surrounding whitespace
    /// aside), English for anything else.
    pub fn from_code(value: &str) -> (r: Language)
        ensures
            r == (if trim(value@) == "cs"@ {
                Language::Cs
            } else {
                Language::En
            }),
    {
        let s = chars_of(value);
        let (a, b) = trim_bounds(&s, 0, s.len());
        assert(s@.subrange(0, s@.len() as int) =~= value@);
        proof {
            reveal_strlit("cs");
        }
        if b - a == 2 && s[a] == 'c' && s[a + 1] == 's' {
            assert(s@.subrange(a as int, b as int) =~= "cs"@);
            Language::Cs
        } else {
            assert(s@.subrange(a as int, b as int) != "cs"@) by {
                reveal_strlit("cs");
                assert("cs"@.len() == 2);
                assert("cs"@[0] == 'c');
                assert("cs"@[1] == 's');
                if b - a == 2 {
                    assert(s@.subrange(a as int, b as int)[0] == s@[a as int]);
                    assert(s@.subrange(a as int, b as int)[1] == s@[a + 1]);
                }
            }
            Language::En
        }
    }

    pub fn title(self) -> (r: &'static str)
        ensures
            r@ == pick(self, "Rust File Finder"@, "Rust File Finder"@),
    {
        match self {
            Language::En => "Rust File Finder",
            Language::Cs => "Rust File Finder",
        }
    }

    pub fn theme_menu(self) -> (r: &'static str)
        ensures
            r@ == pick(self, "Theme"@, "Vzhled"@),
    {
        match self {
            Language::En => "Theme",
            Language::Cs => "Vzhled",
        }
    }

    pub fn language_menu(self) -> (r: &'static str)
        ensures
            r@ == pick(self, "Language"@, "Jazyk"@),
    {
        match self {
            Language::En => "Language",
            Language::Cs => "Jazyk",
        }
    }

    pub fn folders(self) -> (r: &'static str)
        ensures
            r@ == pick(self, "Folders"@, "Slozky"@),
    {
        match self {
            Language::En => "Folders",
            Language::Cs => "Slozky",
        }
    }

    pub fn folders_placeholder(self) -> (r: &'static str)
        ensures
            r@ == pick(self, "Folders separated by commas"@, "Slozky oddelene carkou"@),
    {
        match self {
            Language::En => "Folders separated by commas",
            Language::Cs => "Slozky oddelene carkou",
        }
    }

    pub fn add_folder(self) -> (r: &'static str)
        ensures
            r@ == pick(self, "Add Folder"@, "Pridat slozku"@),
    {
        match self {
            Language::En => "Add Folder",
            Language::Cs => "Pridat slozku",
        }
    }

    pub fn file_types(self) -> (r: &'static str)
        ensures
            r@ == pick(self, "File Types"@, "Pripony"@),
    {
        match self {
            Language::En => "File Types",
            Language::Cs => "Pripony",
        }
    }

    pub fn custom(self) -> (r: &'static str)
        ensures
            r@ == pick(self, "Custom:"@, "Vlastni:"@),
    {
        match self {
            Language::En => "Custom:",
            Language::Cs => "Vlastni:",
        }
    }

    pub fn custom_placeholder(self) -> (r: &'static str)
        ensures
            r@ == pick(
                self,
                "Custom extensions, e.g. md,csv,json"@,
                "Vlastni pripony, napr. md,csv,json"@,
            ),
    {
        match self {
            Language::En => "Custom extensions, e.g. md,csv,json",
            Language::Cs => "Vlastni pripony, napr. md,csv,json",
        }
    }

    pub fn date(self) -> (r: &'static str)
        ensures
            r@ == pick(self, "Date"@, "Datum"@),
    {
        match self {
            Language::En => "Date",
            Language::Cs => "Datum",
        }
    }

    pub fn from(self) -> (r: &'static str)
        ensures
            r@ == pick(self, "From"@, "Od"@),
    {
        match self {
            Language::En => "From",
            Language::Cs => "Od",
        }
    }

    pub fn to(self) -> (r: &'static str)
        ensures
            r@ == pick(self, "To"@, "Do"@),
    {
        match self {
            Language::En => "To",
            Language::Cs => "Do",
        }
    }

    pub fn pick_date(self) -> (r: &'static str)
        ensures
            r@ == pick(self, "Pick date"@, "Vybrat datum"@),
    {
        match self {
            Language::En => "Pick date",
            Language::Cs => "Vybrat datum",
        }
    }

    pub fn clear(self) -> (r: &'static str)
        ensures
            r@ == pick(self, "Clear"@, "Vymazat"@),
    {
        match self {
            Language::En => "Clear",
            Language::Cs => "Vymazat",
        }
    }

    pub fn search(self) -> (r: &'static str)
        ensures
            r@ == pick(self, "Search"@, "Hledat"@),
    {
        match self {
            Language::En => "Search",
            Language::Cs => "Hledat",
        }
    }

    pub fn previous(self) -> (r: &'static str)
        ensures
            r@ == pick(self, "Previous"@, "Predchozi"@),
    {
        match self {
            Language::En => "Previous",
            Language::Cs => "Predchozi",
        }
    }

    pub fn next(self) -> (r: &'static str)
        ensures
            r@ == pick(self, "Next"@, "Dalsi"@),
    {
        match self {
            Language::En => "Next",
            Language::Cs => "Dalsi",
        }
    }

    pub fn file_dialog_title(self) -> (r: &'static str)
        ensures
            r@ == pick(self, "Select folder"@, "Vyberte slozku"@),
    {
        match self {
            Language::En => "Select folder",
            Language::Cs => "Vyberte slozku",
        }
    }

    pub fn select(self) -> (r: &'static str)
        ensures
            r@ == pick(self, "Select"@, "Vybrat"@),
    {
        match self {
            Language::En => "Select",
            Language::Cs => "Vybrat",
        }
    }

    pub fn cancel(self) -> (r: &'static str)
        ensures
            r@ == pick(self, "Cancel"@, "Zrusit"@),
    {
        match self {
            Language::En => "Cancel",
            Language::Cs => "Zrusit",
        }
    }

    /// How many files were found.
    pub fn found_files(self, count: usize) -> (r: String)
        ensures
            r@ == found_files_text(self, count as nat),
    {
        let mut s = match self {
            Language::En => String::from_str("Files found: "),
            Language::Cs => String::from_str("Nalezeno souboru: "),
        };
        push_decimal(&mut s, count);
        s
    }

    /// Which page of how many is shown.
    pub fn page(self, current: usize, total: usize) -> (r: String)
        ensures
            r@ == page_text(self, current as nat, total as nat),
    {
        let mut s = match self {
            Language::En => String::from_str("Page "),
            Language::Cs => String::from_str("Strana "),
        };
        push_decimal(&mut s, current);
        s.append(" / ");
        push_decimal(&mut s, total);
        s
    }

    pub fn empty_page(self) -> (r: &'static str)
        ensures
            r@ == pick(self, "Page 0 / 0"@, "Strana 0 / 0"@),
    {
        match self {
            Language::En => "Page 0 / 0",
            Language::Cs => "Strana 0 / 0",
        }
    }

    /// The message for a form that cannot be searched.
    pub fn validation(self, error: ValidationError) -> (r: &'static str)
        ensures
            r@ == match error {
                ValidationError::MissingFolder => pick(
                    self,
                    "Select at least one existing folder."@,
                    "Vyberte alespon jednu existujici slozku."@,
                ),
                ValidationError::MissingExtension => pick(
                    self,
                    "Select at least one file type."@,
                    "Vyberte alespon jeden typ souboru."@,
                ),
                ValidationError::InvalidDate => pick(
                    self,
                    "Invalid date. Use the picker to select a valid date."@,
                    "Neplatne datum. Pouzijte vyber platneho data."@,
                ),
                ValidationError::InvalidDateRange => pick(
                    self,
                    "'From' must be earlier than or equal to 'To'."@,
                    "Pole 'Od' musi byt mensi nebo rovno poli 'Do'."@,
                ),
            },
    {
        match (self, error) {
            (Language::En, ValidationError::MissingFolder) => "Select at least one existing folder.",
            (Language::Cs, ValidationError::MissingFolder) => {
                "Vyberte alespon jednu existujici slozku."
            },
            (Language::En, ValidationError::MissingExtension) => "Select at least one file type.",
            (Language::Cs, ValidationError::MissingExtension) => "Vyberte alespon jeden typ souboru.",
            (Language::En, ValidationError::InvalidDate) => {
                "Invalid date. Use the picker to select a valid date."
            },
            (Language::Cs, ValidationError::InvalidDate) => {
                "Neplatne datum. Pouzijte vyber platneho data."
            },
            (Language::En, ValidationError::InvalidDateRange) => {
                "'From' must be earlier than or equal to 'To'."
            },
            (Language::Cs, ValidationError::InvalidDateRange) => {
                "Pole 'Od' musi byt mensi nebo rovno poli 'Do'."
            },
        }
    }
}

// ---------------------------------------------------------------------------
// Paging through results.

/// How many results one page shows.
pub const RESULTS_PER_PAGE: usize = 50;

/// The number of pages that `n` results fill.
pub open spec fn page_count(n: nat) -> nat {
    if n == 0 {
        0
    } else {
        ((n + 49) / 50) as nat
    }
}

/// The results shown on page `page`.
pub open spec fn page_items(results: Seq<Seq<char>>, page: nat) -> Seq<Seq<char>> {
    let start: int = (page * 50) as int;
    let end: int = if start + 50 <= results.len() {
        start + 50
    } else {
        results.len() as int
    };
    if start >= results.len() {
        Seq::empty()
    } else {
        results.subrange(start, end)
    }
}

/// The page after `page` among `n` results' pages, if there is one.
pub open spec fn next_page(page: nat, n: nat) -> nat {
    if page + 1 < page_count(n) {
        page + 1
    } else {
        page
    }
}

/// The page before `page`, if there is one.
pub open spec fn previous_page(page: nat) -> nat {
    if page > 0 {
        (page - 1) as nat
    } else {
        page
    }
}

/// The results of pages `0..k`, one page after the other.
pub open spec fn pages_concat(results: Seq<Seq<char>>, k: nat) -> Seq<Seq<char>>
    decreases k,
{
    if k == 0 {
        Seq::empty()
    } else {
        pages_concat(results, (k - 1) as nat) + page_items(results, (k - 1) as nat)
    }
}

proof fn lemma_pages_prefix(results: Seq<Seq<char>>, k: nat)
    requires
        k * 50 <= results.len() + 49,
    ensures
        pages_concat(results, k) == results.take(
            if k * 50 <= results.len() {
                (k * 50) as int
            } else {
                results.len() as int
            },
        ),
    decreases k,
{
    if k == 0 {
        assert(results.take(0) =~= Seq::<Seq<char>>::empty());
    } else {
        let j = (k - 1) as nat;
        lemma_pages_prefix(results, j);
        assert(j * 50 < results.len()) by (nonlinear_arith)
            requires
                k * 50 <= results.len() + 49,
                j == k - 1,
        ;
        assert(j * 50 + 50 == k * 50) by (nonlinear_arith)
            requires
                j == k - 1,
        ;
        let end = if k * 50 <= results.len() {
            (k * 50) as int
        } else {
            results.len() as int
        };
        assert(results.take((j * 50) as int) + results.subrange((j * 50) as int, end)
            =~= results.take(end));
    }
}

/// Every result is on exactly one page, in order: the pages one after the
/// other are the results; no page holds more than 50 and none is empty.
pub proof fn lemma_pages_cover_results(results: Seq<Seq<char>>)
    ensures
        pages_concat(results, page_count(results.len())) == results,
        forall|p: nat|
            p < page_count(results.len()) ==> 0 < #[trigger] page_items(results, p).len() <= 50,
{
    let n = results.len();
    let c = page_count(n);
    if n > 0 {
        assert(c * 50 <= n + 49 && c * 50 >= n) by (nonlinear_arith)
            requires
                c == (n + 49) / 50,
                n > 0,
        ;
    }
    lemma_pages_prefix(results, c);
    assert(results.take(n as int) =~= results);
    assert forall|p: nat| p < page_count(results.len()) implies 0 < #[trigger] page_items(
        results,
        p,
    ).len() <= 50 by {
        assert(p * 50 < n) by (nonlinear_arith)
            requires
                p < (n + 49) / 50,
        ;
    }
}

/// Going to the next page and back returns to the page one started from,
/// whenever there was a next page.
pub proof fn lemma_next_then_previous(page: nat, n: nat)
    requires
        page + 1 < page_count(n),
    ensures
        previous_page(next_page(page, n)) == page,
        next_page(previous_page(page + 1), n) == page + 1,
{
}

/// The results of a search and the page of them shown.
pub struct PaginationState {
    all_results: Vec<String>,
    current_page: usize,
}

impl PaginationState {
    /// The shown page exists, or there are no results and page 0 is shown.
    #[verifier::type_invariant]
    spec fn page_in_range(self) -> bool {
        if self.all_results.len() == 0 {
            self.current_page == 0
        } else {
            self.current_page < page_count(self.all_results.len() as nat)
        }
    }

    pub closed spec fn results(self) -> Seq<Seq<char>> {
        strings_view(self.all_results@)
    }

    pub closed spec fn page(self) -> nat {
        self.current_page as nat
    }

    /// No results, page 0.
    pub fn new() -> (r: PaginationState)
        ensures
            r.results() == Seq::<Seq<char>>::empty(),
            r.page() == 0,
    {
        let r = PaginationState { all_results: Vec::new(), current_page: 0 };
        assert(strings_view(r.all_results@) =~= Seq::<Seq<char>>::empty());
        r
    }

    /// Shows the first page of new results.
    pub fn set_results(&mut self, results: Vec<String>)
        ensures
            final(self).results() == strings_view(results@),
            final(self).page() == 0,
    {
        *self = PaginationState { all_results: results, current_page: 0 };
    }

    /// The number of pages.
    pub fn total_pages(&self) -> (r: usize)
        ensures
            r == page_count(self.results().len()),
    {
        let n = self.all_results.len();
        if n == 0 {
            0
        } else {
            n / RESULTS_PER_PAGE + if n % RESULTS_PER_PAGE == 0 {
                0
            } else {
                1
            }
        }
    }

    /// The index of the page shown.
    pub fn current_page(&self) -> (r: usize)
        ensures
            r == self.page(),
    {
        self.current_page
    }

    /// How many results there are.
    pub fn result_count(&self) -> (r: usize)
        ensures
            r == self.results().len(),
    {
        self.all_results.len()
    }

    /// The results on the page shown.
    pub fn visible_items(&self) -> (r: Vec<String>)
        ensures
            strings_view(r@) == page_items(self.results(), self.page()),
    {
        proof {
            use_type_invariant(self);
        }
        let n = self.all_results.len();
        if n == 0 {
            let r: Vec<String> = Vec::new();
            assert(strings_view(r@) =~= Seq::<Seq<char>>::empty());
            return r;
        }
        assert(self.current_page * 50 < n) by (nonlinear_arith)
            requires
                self.current_page < (n + 49) / 50,
                n > 0,
        ;
        let start = self.current_page * RESULTS_PER_PAGE;
        let end = if n - start >= RESULTS_PER_PAGE {
            start + RESULTS_PER_PAGE
        } else {
            n
        };
        let mut r: Vec<String> = Vec::new();
        let mut i = start;
        while i < end
            invariant
                start <= i <= end <= n,
                n == self.all_results.len(),
                start < n,
                strings_view(r@) == strings_view(self.all_results@).subrange(start as int, i as int),
            decreases end - i,
        {
            let item = self.all_results[i].clone();
            let ghost before = r@;
            r.push(item);
            assert(strings_view(r@) =~= strings_view(before).push(self.all_results@[i as int]@));
            i = i + 1;
            assert(strings_view(r@) =~= strings_view(self.all_results@).subrange(
                start as int,
                i as int,
            ));
        }
        r
    }

    /// Whether there is a page before the one shown.
    pub fn can_go_previous(&self) -> (r: bool)
        ensures
            r == (self.page() > 0),
    {
        self.current_page > 0
    }

    /// Whether there is a page after the one shown.
    pub fn can_go_next(&self) -> (r: bool)
        ensures
            r == (self.page() + 1 < page_count(self.results().len())),
    {
        proof {
            use_type_invariant(self);
        }
        self.current_page + 1 < self.total_pages()
    }

    /// Shows the previous page, if there is one.
    pub fn go_previous(&mut self)
        ensures
            final(self).results() == old(self).results(),
            final(self).page() == previous_page(old(self).page()),
    {
        proof {
            use_type_invariant(&*self);
        }
        if self.can_go_previous() {
            self.current_page = self.current_page - 1;
        }
    }

    /// Shows the next page, if there is one.
    pub fn go_next(&mut self)
        ensures
            final(self).results() == old(self).results(),
            final(self).page() == next_page(old(self).page(), old(self).results().len()),
    {
        proof {
            use_type_invariant(&*self);
        }
        if self.can_go_next() {
            self.current_page = self.current_page + 1;
        }
    }
}

} // verus!

verus! {

// ---------------------------------------------------------------------------
// The search form.

/// The date fields of the form, read: a blank field sets no bound.
pub open spec fn form_date(raw: Seq<char>, end_of_day: bool) -> Result<Option<Timestamp>, ValidationError> {
    if trim(raw).len() == 0 {
        Ok(None)
    } else {
        match date_point(raw, end_of_day) {
            Ok(t) => Ok(Some(t)),
            Err(_) => Err(ValidationError::InvalidDate),
        }
    }
}

/// What the form asks for, given the folders that exist among those typed:
/// the extensions and the date bounds, or why it cannot be searched.
pub open spec fn form_outcome(
    folders: Seq<Seq<char>>,
    extensions_raw: Seq<char>,
    date_from_raw: Seq<char>,
    date_to_raw: Seq<char>,
) -> Result<(Seq<Seq<char>>, Option<Timestamp>, Option<Timestamp>), ValidationError> {
    if folders.len() == 0 {
        Err(ValidationError::MissingFolder)
    } else if parse_extensions_spec(extensions_raw).len() == 0 {
        Err(ValidationError::MissingExtension)
    } else {
        match (form_date(date_from_raw, false), form_date(date_to_raw, true)) {
            (Err(e), _) => Err(e),
            (_, Err(e)) => Err(e),
            (Ok(from), Ok(to)) => if from is Some && to is Some && is_earlier(to->0, from->0) {
                Err(ValidationError::InvalidDateRange)
            } else {
                Ok((parse_extensions_spec(extensions_raw), from, to))
            },
        }
    }
}

/// Each date field of the form gives its bound on its own, whatever the
/// other fields hold: a blank field gives none, any other gives the day it
/// names (the first second for `From`, the last for `To`).  The form is
/// accepted whenever a folder and an extension are given, each date field
/// is blank or readable, and `To` is not before `From`.
pub proof fn lemma_form_fields(
    folders: Seq<Seq<char>>,
    extensions_raw: Seq<char>,
    date_from_raw: Seq<char>,
    date_to_raw: Seq<char>,
)
    ensures
        form_outcome(folders, extensions_raw, date_from_raw, date_to_raw) matches Ok((e, from, to))
            ==> {
            &&& e == parse_extensions_spec(extensions_raw)
            &&& trim(date_from_raw).len() == 0 ==> from is None
            &&& trim(date_from_raw).len() > 0 ==> (date_point(date_from_raw, false) matches Ok(t)
                && from == Some(t))
            &&& trim(date_to_raw).len() == 0 ==> to is None
            &&& trim(date_to_raw).len() > 0 ==> (date_point(date_to_raw, true) matches Ok(t) && to
                == Some(t))
        },
        ({
            &&& folders.len() > 0
            &&& parse_extensions_spec(extensions_raw).len() > 0
            &&& trim(date_from_raw).len() == 0 || date_point(date_from_raw, false) is Ok
            &&& trim(date_to_raw).len() == 0 || date_point(date_to_raw, true) is Ok
            &&& !(trim(date_from_raw).len() > 0 && trim(date_to_raw).len() > 0 && is_earlier(
                date_point(date_to_raw, true)->Ok_0,
                date_point(date_from_raw, false)->Ok_0,
            ))
        }) ==> form_outcome(folders, extensions_raw, date_from_raw, date_to_raw) is Ok,
{
}

/// `r` is the configuration (or the refusal) that `form_outcome` describes
/// for `folders`.
pub open spec fn form_result_matches(
    r: Result<Config, ValidationError>,
    folders: Seq<Seq<char>>,
    o: Result<(Seq<Seq<char>>, Option<Timestamp>, Option<Timestamp>), ValidationError>,
) -> bool {
    match o {
        Ok((extensions, from, to)) => r matches Ok(c) && strings_view(c.folders@) == folders
            && strings_view(c.extensions@) == extensions && c.date_from == from && c.date_to == to,
        Err(e) => r == Err::<Config, ValidationError>(e),
    }
}

fn read_form_date(raw: &str, end_of_day: bool) -> (r: Result<Option<Timestamp>, ValidationError>)
    ensures
        r == form_date(raw@, end_of_day),
{
    if crate::text::is_blank(raw) {
        return Ok(None);
    }
    match parse_date(raw, end_of_day) {
        Ok(t) => Ok(Some(t)),
        Err(_) => Err(ValidationError::InvalidDate),
    }
}

/// The configuration of a search with the given existing folders and the
/// other fields of the form.
pub fn config_from_parts(
    folders: Vec<String>,
    extensions_raw: &str,
    date_from_raw: &str,
    date_to_raw: &str,
) -> (r: Result<Config, ValidationError>)
    ensures
        form_result_matches(
            r,
            strings_view(folders@),
            form_outcome(strings_view(folders@), extensions_raw@, date_from_raw@, date_to_raw@),
        ),
        r matches Ok(c) ==> {
            &&& trim(date_from_raw@).len() == 0 ==> c.date_from is None
            &&& trim(date_from_raw@).len() > 0 ==> (date_point(date_from_raw@, false) matches Ok(t)
                && c.date_from == Some(t))
            &&& trim(date_to_raw@).len() == 0 ==> c.date_to is None
            &&& trim(date_to_raw@).len() > 0 ==> (date_point(date_to_raw@, true) matches Ok(t)
                && c.date_to == Some(t))
        },
{
    proof {
        lemma_form_fields(strings_view(folders@), extensions_raw@, date_from_raw@, date_to_raw@);
    }
    if folders.len() == 0 {
        return Err(ValidationError::MissingFolder);
    }
    let extensions = parse_extensions(extensions_raw);
    if extensions.len() == 0 {
        return Err(ValidationError::MissingExtension);
    }
    let date_from = match read_form_date(date_from_raw, false) {
        Ok(v) => v,
        Err(e) => return Err(e),
    };
    let date_to = match read_form_date(date_to_raw, true) {
        Ok(v) => v,
        Err(e) => return Err(e),
    };
    match (date_from, date_to) {
        (Some(from), Some(to)) => {
            if to.is_before(&from) {
                return Err(ValidationError::InvalidDateRange);
            }
        },
        _ => {},
    }
    Ok(Config { folders, extensions, date_from, date_to })
}

/// Reads the search form; `home` is the home folder for `~`.  Which of the
/// typed folders exist is decided by the file system when the call is made.
pub fn build_config(
    folders_raw: &str,
    home: Option<&str>,
    extensions_raw: &str,
    date_from_raw: &str,
    date_to_raw: &str,
) -> (r: Result<Config, ValidationError>)
    ensures
        exists|flags: Seq<bool>|
            #![trigger keep_flagged(folder_candidates_spec(folders_raw@, opt_view(home)), flags)]
            flags.len() == folder_candidates_spec(folders_raw@, opt_view(home)).len()
                && form_result_matches(
                r,
                keep_flagged(folder_candidates_spec(folders_raw@, opt_view(home)), flags),
                form_outcome(
                    keep_flagged(folder_candidates_spec(folders_raw@, opt_view(home)), flags),
                    extensions_raw@,
                    date_from_raw@,
                    date_to_raw@,
                ),
            ),
{
    let folders = parse_folders(folders_raw, home);
    config_from_parts(folders, extensions_raw, date_from_raw, date_to_raw)
}

// ---------------------------------------------------------------------------
// The folder field.

/// `incoming` is already one of the comma-separated items of `current`.
pub open spec fn folder_listed(current: Seq<char>, incoming: Seq<char>) -> bool {
    exists|k: int| 0 <= k < split(current, ',').len() && trim(#[trigger] split(current, ',')[k]) == incoming
}

/// The folder field after a folder is picked: unchanged when the folder is
/// listed, the folder alone when the field is blank, otherwise the folder
/// added behind `, `.
pub open spec fn appended_folders(current: Seq<char>, incoming: Seq<char>) -> Seq<char> {
    if folder_listed(current, incoming) {
        current
    } else if trim(current).len() == 0 {
        incoming
    } else {
        current + ", "@ + incoming
    }
}

/// Whether `s[lo..hi]` is `t`.
fn range_is(s: &Vec<char>, lo: usize, hi: usize, t: &Vec<char>) -> (r: bool)
    requires
        lo <= hi <= s.len(),
    ensures
        r == (s@.subrange(lo as int, hi as int) == t@),
{
    if hi - lo != t.len() {
        return false;
    }
    let mut i: usize = 0;
    while i < t.len()
        invariant
            lo <= hi <= s.len(),
            hi - lo == t.len(),
            i <= t.len(),
            forall|k: int| 0 <= k < i ==> s@[lo + k] == t@[k],
        decreases t.len() - i,
    {
        if s[lo + i] != t[i] {
            assert(s@.subrange(lo as int, hi as int)[i as int] != t@[i as int]);
            return false;
        }
        i = i + 1;
    }
    assert(s@.subrange(lo as int, hi as int) =~= t@);
    true
}

/// The folder field after the folder `incoming` is picked.
pub fn append_folder(current: &str, incoming: &str) -> (r: String)
    ensures
        r@ == appended_folders(current@, incoming@),
{
    let s = chars_of(current);
    let t = chars_of(incoming);
    let n = s.len();
    let pieces = split_ranges(&s, 0, n, ',');
    assert(s@.subrange(0, n as int) =~= current@);
    let ghost ps = split(current@, ',');
    let mut k: usize = 0;
    while k < pieces.len()
        invariant
            n == s.len(),
            s@ == current@,
            t@ == incoming@,
            ps == split(current@, ','),
            pieces.len() == ps.len(),
            forall|j: int|
                0 <= j < pieces.len() ==> 0 <= (#[trigger] pieces[j]).0 <= pieces[j].1 <= n
                    && s@.subrange(pieces[j].0 as int, pieces[j].1 as int) == ps[j],
            k <= pieces.len(),
            forall|j: int| 0 <= j < k ==> trim(#[trigger] ps[j]) != incoming@,
        decreases pieces.len() - k,
    {
        let (lo, hi) = pieces[k];
        let (a, b) = trim_bounds(&s, lo, hi);
        if range_is(&s, a, b, &t) {
            assert(trim(ps[k as int]) == incoming@);
            assert(folder_listed(current@, incoming@));
            return String::from_str(current);
        }
        k = k + 1;
    }
    assert(!folder_listed(current@, incoming@));
    if crate::text::is_blank(current) {
        String::from_str(incoming)
    } else {
        let mut r = String::from_str(current);
        r.append(", ");
        r.append(incoming);
        r
    }
}

/// Picking the same folder twice leaves the field as picking it once, for
/// any folder without commas and without surrounding whitespace.
pub proof fn lemma_append_folder_idempotent(current: Seq<char>, incoming: Seq<char>)
    requires
        forall|i: int| 0 <= i < incoming.len() ==> incoming[i] != ',',
        trim(incoming) == incoming,
    ensures
        appended_folders(appended_folders(current, incoming), incoming) == appended_folders(
            current,
            incoming,
        ),
        folder_listed(appended_folders(current, incoming), incoming),
{
    reveal_strlit(", ");
    let once = appended_folders(current, incoming);
    if folder_listed(current, incoming) {
    } else if trim(current).len() == 0 {
        crate::text::lemma_split_single(incoming, ',');
        assert(trim(split(incoming, ',')[0]) == incoming);
    } else {
        let tail = seq![' '] + incoming;
        assert(once =~= current + seq![','] + tail);
        crate::text::lemma_split_concat(current, ',', tail);
        assert forall|i: int| 0 <= i < tail.len() implies tail[i] != ',' by {
            if i > 0 {
                assert(tail[i] == incoming[i - 1]);
            }
        }
        crate::text::lemma_split_single(tail, ',');
        assert(tail.drop_first() =~= incoming);
        assert(crate::text::trim_start(tail) == crate::text::trim_start(incoming));
        let k = split(current, ',').len() as int;
        assert(split(once, ',')[k] == tail);
        assert(trim(split(once, ',')[k]) == incoming);
    }
}

// ---------------------------------------------------------------------------
// The extension field and the date buttons.

/// `items` joined with `sep` between them.
pub open spec fn join(items: Seq<Seq<char>>, sep: Seq<char>) -> Seq<char>
    decreases items.len(),
{
    if items.len() == 0 {
        Seq::empty()
    } else if items.len() == 1 {
        items[0]
    } else {
        join(items.drop_last(), sep) + sep + items.last()
    }
}

pub open spec fn checkbox_labels(v: Seq<(String, bool)>) -> Seq<Seq<char>> {
    v.map_values(|p: (String, bool)| p.0@)
}

pub open spec fn checkbox_states(v: Seq<(String, bool)>) -> Seq<bool> {
    v.map_values(|p: (String, bool)| p.1)
}

/// The extension list that the form's checkboxes and custom field give:
/// the labels of the checked boxes, then the custom text when it is not
/// blank, joined by commas.
pub open spec fn collected_extensions(checkboxes: Seq<(String, bool)>, custom: Seq<char>) -> Seq<char> {
    join(
        keep_flagged(checkbox_labels(checkboxes), checkbox_states(checkboxes)) + if trim(custom).len()
            == 0 {
            Seq::<Seq<char>>::empty()
        } else {
            seq![custom]
        },
        seq![','],
    )
}

/// The extension list of the form: checked labels and the custom text.
pub fn collect_extensions(checkboxes: &Vec<(String, bool)>, custom: &str) -> (r: String)
    ensures
        r@ == collected_extensions(checkboxes@, custom@),
{
    let ghost labels = checkbox_labels(checkboxes@);
    let ghost states = checkbox_states(checkboxes@);
    let mut r = String::new();
    let mut count: usize = 0;
    let mut k: usize = 0;
    while k < checkboxes.len()
        invariant
            k <= checkboxes.len(),
            labels == checkbox_labels(checkboxes@),
            states == checkbox_states(checkboxes@),
            count == keep_flagged(labels.take(k as int), states).len(),
            count <= k,
            r@ == join(keep_flagged(labels.take(k as int), states), seq![',']),
        decreases checkboxes.len() - k,
    {
        assert(labels.take(k + 1).drop_last() =~= labels.take(k as int));
        let ghost items = keep_flagged(labels.take(k as int), states);
        if checkboxes[k].1 {
            if count > 0 {
                r.append(",");
                proof {
                    reveal_strlit(",");
                }
            }
            r.append(checkboxes[k].0.as_str());
            assert(keep_flagged(labels.take(k + 1), states) =~= items.push(labels[k as int]));
            assert(items.push(labels[k as int]).drop_last() =~= items);
            count = count + 1;
        } else {
            assert(keep_flagged(labels.take(k + 1), states) =~= items);
        }
        k = k + 1;
    }
    assert(labels.take(k as int) =~= labels);
    let ghost items = keep_flagged(labels, states);
    if !crate::text::is_blank(custom) {
        if count > 0 {
            r.append(",");
            proof {
                reveal_strlit(",");
            }
        }
        r.append(custom);
        assert(items.push(custom@).drop_last() =~= items);
        assert(items + seq![custom@] =~= items.push(custom@));
    } else {
        assert(items + Seq::<Seq<char>>::empty() =~= items);
    }
    r
}

/// The date a date button shows, or nothing while it shows its
/// placeholder in `language`.
pub fn button_date_value(label: Option<&str>, language: Language) -> (r: String)
    ensures
        r@ == match label {
            Some(l) => if l@ != pick(language, "Pick date"@, "Vybrat datum"@) {
                l@
            } else {
                Seq::<char>::empty()
            },
            None => Seq::<char>::empty(),
        },
{
    match label {
        Some(l) => if !same_text(l, language.pick_date()) {
            String::from_str(l)
        } else {
            String::new()
        },
        None => String::new(),
    }
}

/// Whether a date button shows the placeholder of either language.
pub fn button_label_is_date_placeholder(label: Option<&str>) -> (r: bool)
    ensures
        r == (label matches Some(l) && (l@ == "Pick date"@ || l@ == "Vybrat datum"@)),
{
    match label {
        Some(l) => same_text(l, Language::En.pick_date()) || same_text(l, Language::Cs.pick_date()),
        None => false,
    }
}

// ---------------------------------------------------------------------------
// Texts that follow the language.

/// The page label: the page shown (counted from 1) of how many.
pub open spec fn page_label_text(lang: Language, results: nat, page: nat) -> Seq<char> {
    if page_count(results) == 0 {
        pick(lang, "Page 0 / 0"@, "Strana 0 / 0"@)
    } else {
        page_text(lang, page + 1, page_count(results))
    }
}

/// The page label for `state`.
pub fn page_label(language: Language, state: &PaginationState) -> (r: String)
    ensures
        r@ == page_label_text(language, state.results().len(), state.page()),
{
    let total = state.total_pages();
    if total == 0 {
        String::from_str(language.empty_page())
    } else {
        proof {
            use_type_invariant(state);
        }
        language.page(state.current_page() + 1, total)
    }
}

/// The status line after a change of language: a count of found files is
/// said again in the new language; any other status stays as it is (`None`).
pub open spec fn status_after_language_change(existing: Seq<char>, lang: Language, count: nat) -> Option<Seq<char>> {
    if existing.len() > 0 && ((existing.len() >= "Files found: "@.len() && existing.take(
        "Files found: "@.len() as int,
    ) == "Files found: "@) || (existing.len() >= "Nalezeno souboru: "@.len() && existing.take(
        "Nalezeno souboru: "@.len() as int,
    ) == "Nalezeno souboru: "@)) {
        Some(found_files_text(lang, count))
    } else {
        None
    }
}

/// The status line to show after the language changes to `language`, when
/// it changes.
pub fn translated_status(existing: &str, language: Language, count: usize) -> (r: Option<String>)
    ensures
        match status_after_language_change(existing@, language, count as nat) {
            Some(t) => r matches Some(s) && s@ == t,
            None => r is None,
        },
{
    if existing.unicode_len() == 0 {
        return None;
    }
    if has_prefix(existing, "Files found: ") || has_prefix(existing, "Nalezeno souboru: ") {
        Some(language.found_files(count))
    } else {
        None
    }
}

// ---------------------------------------------------------------------------
// Themes and saved settings.

/// A colour theme: its id (a style class of the window) and its names.
#[derive(Debug, Clone, Copy)]
pub struct ThemeDefinition {
    pub id: &'static str,
    pub label_en: &'static str,
    pub label_cs: &'static str,
}

impl ThemeDefinition {
    /// The name of the theme in `language`.
    pub fn label(self, language: Language) -> (r: &'static str)
        ensures
            r@ == pick(language, self.label_en@, self.label_cs@),
    {
        match language {
            Language::En => self.label_en,
            Language::Cs => self.label_cs,
        }
    }
}

/// The themes: id, English name, Czech name.
pub open spec fn theme_table() -> Seq<(Seq<char>, Seq<char>, Seq<char>)> {
    seq![
        ("theme-sand"@, "Sand"@, "Pisek"@),
        ("theme-forest"@, "Forest"@, "Les"@),
        ("theme-night"@, "Night"@, "Noc"@),
        ("theme-ink"@, "Ink"@, "Inkoust"@),
    ]
}

/// The theme used when none (or an unknown one) is chosen.
pub const DEFAULT_THEME_ID: &'static str = "theme-sand";

/// The themes the window offers, in menu order.
pub fn themes() -> (r: Vec<ThemeDefinition>)
    ensures
        r.len() == theme_table().len(),
        forall|i: int|
            0 <= i < r.len() ==> ((#[trigger] r[i]).id@, r[i].label_en@, r[i].label_cs@)
                == theme_table()[i],
{
    vec![
        ThemeDefinition { id: "theme-sand", label_en: "Sand", label_cs: "Pisek" },
        ThemeDefinition { id: "theme-forest", label_en: "Forest", label_cs: "Les" },
        ThemeDefinition { id: "theme-night", label_en: "Night", label_cs: "Noc" },
        ThemeDefinition { id: "theme-ink", label_en: "Ink", label_cs: "Inkoust" },
    ]
}

/// `id` is the id of one of the themes.
pub open spec fn is_theme_id(id: Seq<char>) -> bool {
    exists|i: int| 0 <= i < theme_table().len() && (#[trigger] theme_table()[i]).0 == id
}

/// The theme applied for a requested id: that theme when it exists, the
/// default one otherwise.
pub open spec fn theme_choice(id: Seq<char>) -> Seq<char> {
    if is_theme_id(id) {
        id
    } else {
        "theme-sand"@
    }
}

/// The id of the theme to apply for a requested id.
pub fn known_theme(theme_id: &str) -> (r: &'static str)
    ensures
        r@ == theme_choice(theme_id@),
{
    let table = themes();
    let mut i: usize = 0;
    while i < table.len()
        invariant
            i <= table.len(),
            table.len() == theme_table().len(),
            forall|j: int|
                0 <= j < table.len() ==> ((#[trigger] table[j]).id@, table[j].label_en@, table[j].label_cs@)
                    == theme_table()[j],
            forall|j: int| 0 <= j < i ==> theme_table()[j].0 != theme_id@,
        decreases table.len() - i,
    {
        if same_text(table[i].id, theme_id) {
            assert(theme_table()[i as int].0 == theme_id@);
            return table[i].id;
        }
        i = i + 1;
    }
    assert(!is_theme_id(theme_id@));
    DEFAULT_THEME_ID
}

/// The theme to apply for the contents of the saved theme file.
pub fn theme_from_saved(content: &str) -> (r: &'static str)
    ensures
        r@ == theme_choice(trim(content@)),
{
    let t = crate::text::trimmed(content);
    known_theme(t.as_str())
}

/// The contents of the saved theme file for a theme.
pub fn saved_theme_text(theme_id: &str) -> (r: String)
    ensures
        r@ == theme_id@.push('\n'),
{
    let mut r = String::from_str(theme_id);
    r.append("\n");
    proof {
        reveal_strlit("\n");
    }
    assert(r@ =~= theme_id@.push('\n'));
    r
}

/// The contents of the saved language file for a language.
pub fn saved_language_text(language: Language) -> (r: String)
    ensures
        r@ == pick(language, "en"@, "cs"@).push('\n'),
{
    let mut r = String::from_str(language.code());
    r.append("\n");
    proof {
        reveal_strlit("\n");
    }
    assert(r@ =~= pick(language, "en"@, "cs"@).push('\n'));
    r
}

/// A saved theme is read back as the theme that was saved.
pub proof fn lemma_theme_round_trip(id: Seq<char>)
    requires
        is_theme_id(id),
    ensures
        theme_choice(trim(id.push('\n'))) == id,
{
    reveal_strlit("theme-sand");
    reveal_strlit("theme-forest");
    reveal_strlit("theme-night");
    reveal_strlit("theme-ink");
    let i = choose|i: int| 0 <= i < theme_table().len() && (#[trigger] theme_table()[i]).0 == id;
    assert(id.len() > 0 && id[0] == 't');
    assert(id.last() == 'd' || id.last() == 't' || id.last() == 'k');
    crate::text::lemma_trim_line(id);
}

/// A saved language is read back as the language that was saved.
pub proof fn lemma_language_round_trip(language: Language)
    ensures
        (if trim(pick(language, "en"@, "cs"@).push('\n')) == "cs"@ {
            Language::Cs
        } else {
            Language::En
        }) == language,
{
    reveal_strlit("en");
    reveal_strlit("cs");
    crate::text::lemma_trim_line(pick(language, "en"@, "cs"@));
    assert("en"@ != "cs"@) by {
        assert("en"@[0] != "cs"@[0]);
    }
}

// ---------------------------------------------------------------------------
// Where settings are saved.

/// The file of a setting: under `APPDATA`, else under `XDG_CONFIG_HOME`,
/// else under `~/.config`, in a folder `rfindfiles`; the bare file name
/// when none of them is known.
pub open spec fn settings_path_spec(
    file_name: Seq<char>,
    appdata: Option<Seq<char>>,
    xdg_config: Option<Seq<char>>,
    home: Option<Seq<char>>,
) -> Seq<char> {
    match appdata {
        Some(a) => path_join(path_join(a, "rfindfiles"@), file_name),
        None => match xdg_config {
            Some(x) => path_join(path_join(x, "rfindfiles"@), file_name),
            None => match home {
                Some(h) => path_join(path_join(path_join(h, ".config"@), "rfindfiles"@), file_name),
                None => file_name,
            },
        },
    }
}

/// `base` joined with `rest`.
fn join_str(base: &str, rest: &str) -> (r: String)
    ensures
        r@ == path_join(base@, rest@),
{
    let b = chars_of(base);
    let t = chars_of(rest);
    assert(t@.subrange(0, t@.len() as int) =~= rest@);
    crate::paths::join_path(&b, &t, 0, t.len())
}

/// The file that holds a setting, given the `APPDATA`, `XDG_CONFIG_HOME`
/// and `HOME` variables of the environment.
pub fn settings_path(
    file_name: &str,
    appdata: Option<&str>,
    xdg_config: Option<&str>,
    home: Option<&str>,
) -> (r: String)
    ensures
        r@ == settings_path_spec(file_name@, opt_view(appdata), opt_view(xdg_config), opt_view(home)),
{
    match appdata {
        Some(a) => {
            let dir = join_str(a, "rfindfiles");
            return join_str(dir.as_str(), file_name);
        },
        None => {},
    }
    match xdg_config {
        Some(x) => {
            let dir = join_str(x, "rfindfiles");
            return join_str(dir.as_str(), file_name);
        },
        None => {},
    }
    match home {
        Some(h) => {
            let config = join_str(h, ".config");
            let dir = join_str(config.as_str(), "rfindfiles");
            join_str(dir.as_str(), file_name)
        },
        None => String::from_str(file_name),
    }
}

} // verus!
