//! The two pages that the server hands out: which one a request gets, and
//! the bytes of the answer.

use vstd::prelude::*;

verus! {

/// The request line that asks for the root page: `GET / HTTP/1.1`, a
/// carriage return and a line feed, in ASCII.
pub open spec fn root_request() -> Seq<u8> {
    seq![71u8, 69, 84, 32, 47, 32, 72, 84, 84, 80, 47, 49, 46, 49, 13, 10]
}

/// The status line `HTTP/1.1 200 OK`, in ASCII.
pub open spec fn status_ok() -> Seq<u8> {
    seq![72u8, 84, 84, 80, 47, 49, 46, 49, 32, 50, 48, 48, 32, 79, 75]
}

/// The status line `HTTP/1.1 404 NOT FOUND`, in ASCII.
pub open spec fn status_not_found() -> Seq<u8> {
    seq![
        72u8,
        84,
        84,
        80,
        47,
        49,
        46,
        49,
        32,
        52,
        48,
        52,
        32,
        78,
        79,
        84,
        32,
        70,
        79,
        85,
        78,
        68,
    ]
}

/// What stands between the status line and the length: a carriage return, a
/// line feed and `Content-Length: `, in ASCII.
pub open spec fn length_header() -> Seq<u8> {
    seq![13u8, 10, 67, 111, 110, 116, 101, 110, 116, 45, 76, 101, 110, 103, 116, 104, 58, 32]
}

/// The empty line that ends the head: carriage return and line feed, twice.
pub open spec fn head_end() -> Seq<u8> {
    seq![13u8, 10, 13, 10]
}

/// Whether `s` begins with `prefix`.
pub open spec fn starts_with(s: Seq<u8>, prefix: Seq<u8>) -> bool {
    prefix.len() <= s.len() && s.subrange(0, prefix.len() as int) == prefix
}

/// The decimal digits of `n`, in ASCII, without leading zeros.
pub open spec fn decimal(n: nat) -> Seq<u8>
    decreases n,
{
    if n < 10 {
        seq![(48 + n) as u8]
    } else {
        decimal(n / 10).push((48 + n % 10) as u8)
    }
}

/// One of the two pages.
#[derive(Clone, Copy, PartialEq, Eq, Debug, Structural)]
pub enum Page {
    /// The root page, for a request that asks for it.
    Root,
    /// The page for every other request.
    NotFound,
}

impl Page {
    /// The status line that goes out with the page.
    pub open spec fn status(self) -> Seq<u8> {
        match self {
            Page::Root => status_ok(),
            Page::NotFound => status_not_found(),
        }
    }

    /// The whole answer: status line, length of the contents in bytes, an
    /// empty line, and the contents.
    pub open spec fn answer(self, contents: Seq<u8>) -> Seq<u8> {
        self.status() + length_header() + decimal(contents.len()) + head_end() + contents
    }

    /// The status line that goes out with the page.
    pub fn status_line(&self) -> (line: Vec<u8>)
        ensures
            line@ == self.status(),
    {
        let line: Vec<u8> = match self {
            Page::Root => vec![72, 84, 84, 80, 47, 49, 46, 49, 32, 50, 48, 48, 32, 79, 75],
            Page::NotFound => vec![
                72,
                84,
                84,
                80,
                47,
                49,
                46,
                49,
                32,
                52,
                48,
                52,
                32,
                78,
                79,
                84,
                32,
                70,
                79,
                85,
                78,
                68,
            ],
        };
        assert(line@ =~= self.status());
        line
    }

    /// The file that holds the page's contents.
    pub fn filename(&self) -> (name: &'static str)
        ensures
            name@ == match self {
                Page::Root => "templates/200.html"@,
                Page::NotFound => "templates/404.html"@,
            },
    {
        match self {
            Page::Root => "templates/200.html",
            Page::NotFound => "templates/404.html",
        }
    }

    /// The bytes to send for the page with the given contents.
    pub fn response(&self, contents: &[u8]) -> (out: Vec<u8>)
        ensures
            out@ == self.answer(contents@),
    {
        let mut out = self.status_line();
        let header: Vec<u8> = vec![
            13,
            10,
            67,
            111,
            110,
            116,
            101,
            110,
            116,
            45,
            76,
            101,
            110,
            103,
            116,
            104,
            58,
            32,
        ];
        let end: Vec<u8> = vec![13, 10, 13, 10];
        assert(header@ =~= length_header());
        assert(end@ =~= head_end());
        append(&mut out, header.as_slice());
        push_decimal(&mut out, contents.len());
        append(&mut out, end.as_slice());
        append(&mut out, contents);
        out
    }
}

/// The page that a request gets: the root page exactly if the bytes read
/// begin with the request line for it.
pub fn route(request: &[u8]) -> (page: Page)
    ensures
        page == (if starts_with(request@, root_request()) {
            Page::Root
        } else {
            Page::NotFound
        }),
{
    let line: Vec<u8> = vec![71, 69, 84, 32, 47, 32, 72, 84, 84, 80, 47, 49, 46, 49, 13, 10];
    assert(line@ =~= root_request());
    if request.len() < line.len() {
        return Page::NotFound;
    }
    let mut i: usize = 0;
    while i < line.len()
        invariant
            i <= line@.len() <= request@.len(),
            line@ == root_request(),
            forall|k: int| 0 <= k < i ==> request@[k] == line@[k],
        decreases line@.len() - i,
    {
        if request[i] != line[i] {
            assert(request@.subrange(0, line@.len() as int)[i as int] != line@[i as int]);
            return Page::NotFound;
        }
        i += 1;
    }
    assert(request@.subrange(0, line@.len() as int) =~= line@);
    Page::Root
}

/// Appends `bytes` to `out`.
pub fn append(out: &mut Vec<u8>, bytes: &[u8])
    ensures
        final(out)@ == old(out)@ + bytes@,
{
    let mut i: usize = 0;
    assert(out@ =~= old(out)@ + bytes@.take(0));
    while i < bytes.len()
        invariant
            i <= bytes@.len(),
            out@ == old(out)@ + bytes@.take(i as int),
        decreases bytes@.len() - i,
    {
        out.push(bytes[i]);
        i += 1;
        assert(out@ =~= old(out)@ + bytes@.take(i as int));
    }
    assert(bytes@.take(bytes@.len() as int) =~= bytes@);
}

/// Appends the decimal digits of `n` to `out`.
pub fn push_decimal(out: &mut Vec<u8>, n: usize)
    ensures
        final(out)@ == old(out)@ + decimal(n as nat),
    decreases n,
{
    if n >= 10 {
        push_decimal(out, n / 10);
    }
    let digit: u8 = 48 + (n % 10) as u8;
    out.push(digit);
    assert(out@ =~= old(out)@ + decimal(n as nat));
}

} // verus!
