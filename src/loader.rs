use vstd::prelude::*;
use vstd::string::*;
use crate::colour::RGB255;

verus! {

/// Why a list of colours cannot serve as a palette.
#[derive(Clone, Copy, PartialEq, Eq, Structural, Debug)]
pub enum PaletteCheckError {
    TooFewColours(usize),
    TooManyColours(usize),
    Duplicates,
}

/// The decimal digit `d`.
pub open spec fn digit(d: nat) -> char {
    seq!['0', '1', '2', '3', '4', '5', '6', '7', '8', '9'][d as int]
}

/// `n` written in decimal, without leading zeros.
pub open spec fn decimal(n: nat) -> Seq<char>
    decreases n,
{
    if n < 10 {
        seq![digit(n)]
    } else {
        decimal(n / 10).push(digit(n % 10))
    }
}

impl PaletteCheckError {
    /// A human-readable description of the error.
    pub fn message(&self) -> (s: String)
        ensures
            s@ == match self {
                PaletteCheckError::TooFewColours(n) => "Too few colours: "@ + decimal(*n as nat),
                PaletteCheckError::TooManyColours(n) => "Too many colours: "@ + decimal(*n as nat),
                PaletteCheckError::Duplicates => "Duplicated colours"@,
            },
    {
        match self {
            PaletteCheckError::TooFewColours(n) => format_count("Too few colours: ", *n),
            PaletteCheckError::TooManyColours(n) => format_count("Too many colours: ", *n),
            PaletteCheckError::Duplicates => "Duplicated colours".to_string(),
        }
    }
}

/// Relies on std's `format!`: the prefix followed by the count in
/// decimal.
#[verifier::external_body]
fn format_count(prefix: &str, n: usize) -> (r: String)
    ensures
        r@ == prefix@ + decimal(n as nat),
{
    format!("{}{}", prefix, n)
}

/// The smallest number of colours a palette holds.
pub const MIN_COLOURS: usize = 2;
/// The largest number of colours a palette holds.
pub const MAX_COLOURS: usize = 256;

/// No colour occurs twice.
pub open spec fn all_distinct(s: Seq<RGB255>) -> bool {
    forall|i: int, j: int| 0 <= i < j < s.len() ==> s[i] != s[j]
}

/// What validating a list of colours yields.
pub open spec fn palette_check(s: Seq<RGB255>) -> Result<(), PaletteCheckError> {
    if s.len() < MIN_COLOURS {
        Err(PaletteCheckError::TooFewColours(s.len() as usize))
    } else if s.len() > MAX_COLOURS {
        Err(PaletteCheckError::TooManyColours(s.len() as usize))
    } else if !all_distinct(s) {
        Err(PaletteCheckError::Duplicates)
    } else {
        Ok(())
    }
}

/// Accepts a list of 2 to 256 pairwise distinct colours.
pub fn check_palette(palette: &Vec<RGB255>) -> (r: Result<(), PaletteCheckError>)
    ensures
        r == palette_check(palette@),
{
    let n = palette.len();
    if n < MIN_COLOURS {
        return Err(PaletteCheckError::TooFewColours(n));
    }
    if n > MAX_COLOURS {
        return Err(PaletteCheckError::TooManyColours(n));
    }
    let mut i: usize = 0;
    while i < n
        invariant
            n == palette@.len(),
            MIN_COLOURS <= n <= MAX_COLOURS,
            i <= n,
            forall|a: int, b: int| 0 <= a < i && a < b < n ==> palette@[a] != palette@[b],
        decreases n - i,
    {
        let mut j: usize = i + 1;
        while j < n
            invariant
                n == palette@.len(),
                MIN_COLOURS <= n <= MAX_COLOURS,
                i < n,
                i + 1 <= j <= n,
                forall|a: int, b: int| 0 <= a < i && a < b < n ==> palette@[a] != palette@[b],
                forall|b: int| i < b < j ==> palette@[i as int] != palette@[b],
            decreases n - j,
        {
            if palette[i] == palette[j] {
                assert(palette@[i as int] == palette@[j as int]);
                assert(!all_distinct(palette@));
                return Err(PaletteCheckError::Duplicates);
            }
            j += 1;
        }
        i += 1;
    }
    Ok(())
}

/// Why a palette or an image could not be loaded.
#[derive(Clone, PartialEq, Eq, Debug)]
pub enum LoadError {
    InvalidHexLength,
    NonHexCharacters,
    /// A file could not be opened; the message of the underlying error.
    FileOpen(String),
    /// A file could not be read; the message of the underlying error.
    FileRead(String),
    /// A request failed; the message of the underlying error.
    NetworkError(String),
    /// A response was not valid text; the message of the underlying error.
    InvalidEncoding(String),
    /// An image could not be decoded; the message of the underlying error.
    ImageEncoding(String),
    NotFound,
}

impl LoadError {
    /// A human-readable description of the error: fixed text, or the
    /// underlying error's message.
    pub fn message(&self) -> (s: String)
        ensures
            s@ == match self {
                LoadError::InvalidHexLength => "Invalid hex colour length"@,
                LoadError::NonHexCharacters => "Invalid characters in hex colour"@,
                LoadError::FileOpen(m) => m@,
                LoadError::FileRead(m) => m@,
                LoadError::NetworkError(m) => m@,
                LoadError::InvalidEncoding(m) => m@,
                LoadError::ImageEncoding(m) => m@,
                LoadError::NotFound => "Palette not found"@,
            },
    {
        match self {
            LoadError::InvalidHexLength => "Invalid hex colour length".to_string(),
            LoadError::NonHexCharacters => "Invalid characters in hex colour".to_string(),
            LoadError::FileOpen(m) => m.clone(),
            LoadError::FileRead(m) => m.clone(),
            LoadError::NetworkError(m) => m.clone(),
            LoadError::InvalidEncoding(m) => m.clone(),
            LoadError::ImageEncoding(m) => m.clone(),
            LoadError::NotFound => "Palette not found".to_string(),
        }
    }
}

pub open spec fn is_hex_digit(c: char) -> bool {
    ('0' <= c && c <= '9') || ('a' <= c && c <= 'f') || ('A' <= c && c <= 'F')
}

pub open spec fn hex_value(c: char) -> int {
    if '0' <= c && c <= '9' {
        c as int - '0' as int
    } else if 'a' <= c && c <= 'f' {
        c as int - 'a' as int + 10
    } else {
        c as int - 'A' as int + 10
    }
}

/// A hex colour is six characters after its leading `#`s, of which there
/// are none or one: leading `#`s are all prefix, so `#` or `##` followed by
/// five characters is too short.
pub open spec fn hex_length_ok(s: Seq<char>) -> bool {
    (s.len() == 6 && s[0] != '#') || (s.len() == 7 && s[0] == '#' && s[1] != '#')
}

/// The six characters that carry the channels.
pub open spec fn hex_digits(s: Seq<char>) -> Seq<char> {
    if s.len() == 7 { s.subrange(1, 7) } else { s }
}

/// The byte written by the two digits at `k` and `k + 1`.
pub open spec fn hex_byte(d: Seq<char>, k: int) -> int {
    16 * hex_value(d[k]) + hex_value(d[k + 1])
}

/// What parsing a hex colour yields.
pub open spec fn hex_colour(s: Seq<char>) -> Result<RGB255, LoadError> {
    if !hex_length_ok(s) {
        Err(LoadError::InvalidHexLength)
    } else if !(forall|k: int| 0 <= k < 6 ==> is_hex_digit(#[trigger] hex_digits(s)[k])) {
        Err(LoadError::NonHexCharacters)
    } else {
        let d = hex_digits(s);
        Ok(
            RGB255 {
                r: hex_byte(d, 0) as u8,
                g: hex_byte(d, 2) as u8,
                b: hex_byte(d, 4) as u8,
            },
        )
    }
}

fn hex_digit(c: char) -> (r: Option<u8>)
    ensures
        r.is_some() == is_hex_digit(c),
        r.is_some() ==> r.unwrap() as int == hex_value(c),
{
    if '0' <= c && c <= '9' {
        Some((c as u32 - '0' as u32) as u8)
    } else if 'a' <= c && c <= 'f' {
        Some((c as u32 - 'a' as u32 + 10) as u8)
    } else if 'A' <= c && c <= 'F' {
        Some((c as u32 - 'A' as u32 + 10) as u8)
    } else {
        None
    }
}

/// Parses `rrggbb` or `#rrggbb` (digits of either case).
pub fn parse_hex(x: String) -> (r: Result<RGB255, LoadError>)
    ensures
        r == hex_colour(x@),
{
    let s = x.as_str();
    let len = s.unicode_len();
    if !((len == 6 && s.get_char(0) != '#') || (len == 7 && s.get_char(0) == '#' && s.get_char(1)
        != '#')) {
        return Err(LoadError::InvalidHexLength);
    }
    let start: usize = len - 6;
    let ghost d = hex_digits(x@);
    assert(d =~= x@.subrange(start as int, len as int));
    let mut v: [u8; 6] = [0u8; 6];
    let mut k: usize = 0;
    while k < 6
        invariant
            len == x@.len(),
            start + 6 == len,
            s@ == x@,
            d == x@.subrange(start as int, len as int),
            d == hex_digits(x@),
            hex_length_ok(x@),
            k <= 6,
            forall|m: int| 0 <= m < k ==> is_hex_digit(#[trigger] d[m]),
            forall|m: int| 0 <= m < k ==> v@[m] as int == hex_value(#[trigger] d[m]),
        decreases 6 - k,
    {
        let c = s.get_char(start + k);
        match hex_digit(c) {
            Some(h) => {
                v[k] = h;
            },
            None => {
                assert(!is_hex_digit(hex_digits(x@)[k as int]));
                return Err(LoadError::NonHexCharacters);
            },
        }
        k += 1;
    }
    let r: u8 = 16 * v[0] + v[1];
    let g: u8 = 16 * v[2] + v[3];
    let b: u8 = 16 * v[4] + v[5];
    Ok(RGB255::new(r, g, b))
}

/// Every string is a hex colour.
pub open spec fn all_hex(data: Seq<String>) -> bool {
    forall|i: int| 0 <= i < data.len() ==> (#[trigger] hex_colour(data[i]@)) is Ok
}

/// A palette read from some source, with the ICC profile found beside it.
pub struct LoadedPalette {
    pub colours: Vec<RGB255>,
    pub icc_profile: Option<Vec<u8>>,
}

impl LoadedPalette {
    pub fn new(colours: Vec<RGB255>) -> (p: Self)
        ensures
            p.colours == colours,
            p.icc_profile.is_none(),
    {
        LoadedPalette { colours, icc_profile: None }
    }

    pub fn with_icc_profile(self, profile: Vec<u8>) -> (p: Self)
        ensures
            p.colours == self.colours,
            p.icc_profile == Some(profile),
    {
        LoadedPalette { colours: self.colours, icc_profile: Some(profile) }
    }
}

/// An image read from a file: opaque pixels as colours, others `None`.
pub struct LoadedImage {
    pub data: Vec<Vec<Option<RGB255>>>,
    pub icc_profile: Option<Vec<u8>>,
}

impl LoadedImage {
    pub fn new(data: Vec<Vec<Option<RGB255>>>) -> (i: Self)
        ensures
            i.data == data,
            i.icc_profile.is_none(),
    {
        LoadedImage { data, icc_profile: None }
    }

    pub fn with_icc_profile(self, profile: Vec<u8>) -> (i: Self)
        ensures
            i.data == self.data,
            i.icc_profile == Some(profile),
    {
        LoadedImage { data: self.data, icc_profile: Some(profile) }
    }
}

/// Parses each string as a hex colour, in order; the first that fails
/// gives the error.
pub fn load_from_hex(data: &Vec<String>) -> (r: Result<LoadedPalette, LoadError>)
    ensures
        r is Ok <==> all_hex(data@),
        r matches Ok(p) ==> p.icc_profile.is_none() && p.colours@.len() == data@.len() && forall|
            i: int,
        | 0 <= i < data@.len() ==> hex_colour(data@[i]@) == Ok::<RGB255, LoadError>(
            #[trigger] p.colours@[i],
        ),
        r matches Err(e) ==> exists|i: int|
            0 <= i < data@.len() && hex_colour(data@[i]@) == Err::<RGB255, LoadError>(e) && forall|
                j: int,
            | 0 <= j < i ==> (#[trigger] hex_colour(data@[j]@)) is Ok,
{
    let mut colours: Vec<RGB255> = Vec::new();
    let mut i: usize = 0;
    while i < data.len()
        invariant
            i <= data@.len(),
            colours@.len() == i,
            forall|k: int| 0 <= k < i ==> hex_colour(data@[k]@) == Ok::<RGB255, LoadError>(#[trigger] colours@[k]),
        decreases data@.len() - i,
    {
        match parse_hex(data[i].clone()) {
            Ok(c) => {
                colours.push(c);
            },
            Err(e) => {
                assert(forall|j: int| 0 <= j < i ==> (#[trigger] hex_colour(data@[j]@)) is Ok) by {
                    assert forall|j: int| 0 <= j < i implies (#[trigger] hex_colour(data@[j]@)) is Ok by {
                        assert(hex_colour(data@[j]@) == Ok::<RGB255, LoadError>(colours@[j]));
                    }
                }
                assert(!all_hex(data@));
                return Err(e);
            },
        }
        i += 1;
    }
    proof {
        assert forall|k: int| 0 <= k < data@.len() implies (#[trigger] hex_colour(data@[k]@)) is Ok by {
            assert(hex_colour(data@[k]@) == Ok::<RGB255, LoadError>(colours@[k]));
        }
    }
    Ok(LoadedPalette::new(colours))
}

/// The pixels of an image row by row.
pub open spec fn row_major(rows: Seq<Vec<[u8; 4]>>) -> Seq<[u8; 4]>
    decreases rows.len(),
{
    if rows.len() == 0 {
        Seq::empty()
    } else {
        row_major(rows.drop_last()) + rows.last()@
    }
}

/// The colours of the opaque pixels (alpha 255) of `s`, each once, in order
/// of first appearance.
pub open spec fn first_opaque(s: Seq<[u8; 4]>) -> Seq<RGB255>
    decreases s.len(),
{
    if s.len() == 0 {
        Seq::empty()
    } else {
        let seen = first_opaque(s.drop_last());
        let p = s.last();
        if p[3] == 255 && !seen.contains(rgb_of(p)) {
            seen.push(rgb_of(p))
        } else {
            seen
        }
    }
}

/// The colours of the opaque pixels (alpha 255) of a decoded image, each
/// once, in order of first appearance row by row.
pub fn palette_from_pixels(rows: &Vec<Vec<[u8; 4]>>) -> (r: Vec<RGB255>)
    ensures
        r@ == first_opaque(row_major(rows@)),
{
    let mut colours: Vec<RGB255> = Vec::new();
    let mut y: usize = 0;
    proof {
        assert(rows@.take(0) =~= Seq::<Vec<[u8; 4]>>::empty());
    }
    while y < rows.len()
        invariant
            y <= rows@.len(),
            colours@ == first_opaque(row_major(rows@.take(y as int))),
        decreases rows@.len() - y,
    {
        let row = &rows[y];
        let ghost before = row_major(rows@.take(y as int));
        let mut x: usize = 0;
        proof {
            assert(before + row@.take(0) =~= before);
        }
        while x < row.len()
            invariant
                y < rows@.len(),
                *row == rows@[y as int],
                x <= row@.len(),
                before == row_major(rows@.take(y as int)),
                colours@ == first_opaque(before + row@.take(x as int)),
            decreases row@.len() - x,
        {
            let p = row[x];
            let ghost prefix = before + row@.take(x as int);
            proof {
                assert((before + row@.take(x as int + 1)).drop_last() =~= prefix);
                assert((before + row@.take(x as int + 1)).last() == p);
            }
            if p[3] == 255 {
                let c = RGB255::new(p[0], p[1], p[2]);
                assert(c == rgb_of(p));
                let mut found: bool = false;
                let mut k: usize = 0;
                while k < colours.len()
                    invariant
                        k <= colours@.len(),
                        found == (exists|m: int| 0 <= m < k && colours@[m] == c),
                    decreases colours@.len() - k,
                {
                    if colours[k] == c {
                        found = true;
                    }
                    k += 1;
                }
                proof {
                    if found {
                        let m = choose|m: int| 0 <= m < k && colours@[m] == c;
                        assert(colours@.contains(c));
                    }
                }
                if !found {
                    colours.push(c);
                }
            }
            x += 1;
        }
        proof {
            assert(row@.take(row@.len() as int) =~= row@);
            assert(rows@.take(y as int + 1).drop_last() =~= rows@.take(y as int));
            assert(rows@.take(y as int + 1).last() == rows@[y as int]);
        }
        y += 1;
    }
    proof {
        assert(rows@.take(rows@.len() as int) =~= rows@);
    }
    colours
}

/// The colour of an RGBA pixel, alpha dropped.
pub open spec fn rgb_of(p: [u8; 4]) -> RGB255 {
    RGB255 { r: p[0], g: p[1], b: p[2] }
}

/// The pixels of a decoded image: opaque ones (alpha 255) as colours, the
/// others `None`.
pub fn image_from_pixels(rows: &Vec<Vec<[u8; 4]>>) -> (r: LoadedImage)
    ensures
        r.icc_profile.is_none(),
        r.data@.len() == rows@.len(),
        forall|y: int| 0 <= y < rows@.len() ==> (#[trigger] r.data@[y])@.len() == rows@[y]@.len(),
        forall|y: int, x: int|
            0 <= y < rows@.len() && 0 <= x < rows@[y]@.len() ==> #[trigger] r.data@[y]@[x] == (if rows@[y]@[x][3]
                == 255 {
                Some(rgb_of(rows@[y]@[x]))
            } else {
                None
            }),
{
    let mut data: Vec<Vec<Option<RGB255>>> = Vec::new();
    let mut y: usize = 0;
    while y < rows.len()
        invariant
            y <= rows@.len(),
            data@.len() == y,
            forall|k: int| 0 <= k < y ==> (#[trigger] data@[k])@.len() == rows@[k]@.len(),
            forall|k: int, x: int|
                0 <= k < y && 0 <= x < rows@[k]@.len() ==> #[trigger] data@[k]@[x] == (if rows@[k]@[x][3]
                    == 255 {
                    Some(rgb_of(rows@[k]@[x]))
                } else {
                    None
                }),
        decreases rows@.len() - y,
    {
        let row = &rows[y];
        let mut out: Vec<Option<RGB255>> = Vec::new();
        let mut x: usize = 0;
        while x < row.len()
            invariant
                y < rows@.len(),
                *row == rows@[y as int],
                x <= row@.len(),
                out@.len() == x,
                forall|k: int| 0 <= k < x ==> #[trigger] out@[k] == (if row@[k][3] == 255 {
                    Some(rgb_of(row@[k]))
                } else {
                    None
                }),
            decreases row@.len() - x,
        {
            let p = row[x];
            if p[3] == 255 {
                out.push(Some(RGB255::new(p[0], p[1], p[2])));
            } else {
                out.push(None);
            }
            x += 1;
        }
        data.push(out);
        y += 1;
    }
    LoadedImage::new(data)
}

/// The text of `s` cut at each comma (a comma-free text is one field).
pub open spec fn comma_fields(s: Seq<char>) -> Seq<Seq<char>>
    decreases s.len(),
{
    if s.len() == 0 {
        seq![Seq::empty()]
    } else {
        let f = comma_fields(s.drop_last());
        if s.last() == ',' {
            f.push(Seq::empty())
        } else {
            f.update(f.len() - 1, f.last().push(s.last()))
        }
    }
}

proof fn lemma_comma_fields_len(s: Seq<char>)
    ensures
        comma_fields(s).len() >= 1,
    decreases s.len(),
{
    if s.len() > 0 {
        lemma_comma_fields_len(s.drop_last());
    }
}

/// The colour fields of a palette list: its comma-separated fields after
/// the first two (name and author).
pub open spec fn csv_colours(s: Seq<char>) -> Seq<Seq<char>> {
    let f = comma_fields(s);
    if f.len() <= 2 { Seq::empty() } else { f.subrange(2, f.len() as int) }
}

/// The fields of `s`, split at each comma.
fn split_commas(s: &str) -> (r: Vec<String>)
    ensures
        r@.map_values(|x: String| x@) == comma_fields(s@),
{
    let len: usize = s.unicode_len();
    let mut done: Vec<String> = Vec::new();
    let mut start: usize = 0;
    let mut i: usize = 0;
    proof {
        assert(s@.take(0) =~= Seq::<char>::empty());
        assert(done@.map_values(|x: String| x@).push(s@.subrange(0, 0)) =~= comma_fields(s@.take(0)));
    }
    while i < len
        invariant
            len == s@.len(),
            start <= i <= len,
            done@.map_values(|x: String| x@).push(s@.subrange(start as int, i as int)) == comma_fields(
                s@.take(i as int),
            ),
        decreases len - i,
    {
        let c = s.get_char(i);
        let ghost before = done@.map_values(|x: String| x@);
        let ghost cur = s@.subrange(start as int, i as int);
        proof {
            assert(s@.take(i as int + 1).drop_last() =~= s@.take(i as int));
            assert(s@.take(i as int + 1).last() == c);
        }
        if c == ',' {
            let field: String = s.substring_char(start, i).to_owned();
            done.push(field);
            start = i + 1;
            proof {
                assert(done@.map_values(|x: String| x@) =~= before.push(cur));
                assert(s@.subrange(start as int, i as int + 1) =~= Seq::<char>::empty());
                assert(done@.map_values(|x: String| x@).push(s@.subrange(start as int, i as int + 1))
                    =~= before.push(cur).push(Seq::empty()));
            }
        } else {
            proof {
                assert(s@.subrange(start as int, i as int + 1) =~= cur.push(c));
                assert(before.push(cur).update(before.len() as int, cur.push(c)) =~= before.push(cur.push(c)));
            }
        }
        i += 1;
    }
    let last: String = s.substring_char(start, len).to_owned();
    let ghost before = done@.map_values(|x: String| x@);
    done.push(last);
    proof {
        assert(s@.take(len as int) =~= s@);
        assert(done@.map_values(|x: String| x@) =~= before.push(s@.subrange(start as int, len as int)));
    }
    done
}

/// A palette list as the palette site serves it: the answer
/// `file not found`, or comma-separated fields of which the first two are
/// the palette's name and author and the rest hex colours.
pub fn palette_from_csv(csv: &str) -> (r: Result<LoadedPalette, LoadError>)
    ensures
        csv@ == "file not found"@ ==> r == Err::<LoadedPalette, LoadError>(LoadError::NotFound),
        csv@ != "file not found"@ ==> {
            let data = csv_colours(csv@);
            &&& (r is Ok <==> forall|i: int| 0 <= i < data.len() ==> (#[trigger] hex_colour(data[i])) is Ok)
            &&& (r matches Ok(p) ==> p.icc_profile.is_none() && p.colours@.len() == data.len() && forall|
                i: int,
            | 0 <= i < data.len() ==> hex_colour(data[i]) == Ok::<RGB255, LoadError>(
                #[trigger] p.colours@[i],
            ))
            &&& (r matches Err(e) ==> exists|i: int|
                0 <= i < data.len() && hex_colour(data[i]) == Err::<RGB255, LoadError>(e) && forall|
                    j: int,
                | 0 <= j < i ==> (#[trigger] hex_colour(data[j])) is Ok)
        },
{
    let answer: String = csv.to_owned();
    let not_found: String = "file not found".to_owned();
    if answer == not_found {
        return Err(LoadError::NotFound);
    }
    let all = split_commas(csv);
    let ghost fields_all = all@.map_values(|x: String| x@);
    let mut colours: Vec<String> = Vec::new();
    let mut k: usize = 2;
    while k < all.len()
        invariant
            fields_all == all@.map_values(|x: String| x@),
            2 <= k,
            k <= all@.len() || (k == 2 && all@.len() < 2),
            colours@.len() == k - 2,
            forall|m: int| 0 <= m < k - 2 ==> (#[trigger] colours@[m])@ == fields_all[m + 2],
        decreases all@.len() - k,
    {
        let f: String = all[k].clone();
        colours.push(f);
        k += 1;
    }
    proof {
        let data = csv_colours(csv@);
        assert(fields_all == comma_fields(csv@));
        assert(colours@.len() == data.len());
        assert forall|m: int| 0 <= m < data.len() implies (#[trigger] colours@[m])@ == data[m] by {
            assert(data[m] == fields_all[m + 2]);
        }
    }
    let r = load_from_hex(&colours);
    proof {
        let data = csv_colours(csv@);
        assert forall|i: int| 0 <= i < data.len() implies hex_colour(data[i]) == hex_colour(
            #[trigger] colours@[i]@,
        ) by {}
        if forall|i: int| 0 <= i < data.len() ==> (#[trigger] hex_colour(data[i])) is Ok {
            assert forall|i: int| 0 <= i < colours@.len() implies (#[trigger] hex_colour(colours@[i]@)) is Ok by {
                assert(hex_colour(data[i]) is Ok);
            }
            assert(all_hex(colours@));
        }
        if r is Ok {
            assert(all_hex(colours@));
            assert forall|i: int| 0 <= i < data.len() implies (#[trigger] hex_colour(data[i])) is Ok by {
                assert(hex_colour(colours@[i]@) is Ok);
            }
        }
        if r is Ok {
            let p = r->Ok_0;
            assert forall|i: int| 0 <= i < data.len() implies hex_colour(data[i]) == Ok::<RGB255, LoadError>(
                #[trigger] p.colours@[i],
            ) by {
                assert(hex_colour(colours@[i]@) == Ok::<RGB255, LoadError>(p.colours@[i]));
            }
        } else {
            let e = r->Err_0;
            let i = choose|i: int|
                0 <= i < colours@.len() && hex_colour(colours@[i]@) == Err::<RGB255, LoadError>(e)
                    && forall|j: int| 0 <= j < i ==> (#[trigger] hex_colour(colours@[j]@)) is Ok;
            assert forall|j: int| 0 <= j < i implies (#[trigger] hex_colour(data[j])) is Ok by {
                assert(hex_colour(colours@[j]@) is Ok);
            }
            assert(hex_colour(data[i]) == Err::<RGB255, LoadError>(e));
        }
    }
    r
}

} // verus!
