//! `lyrics ebook`: the library as a book model, rendered into the documents of one EPUB.
pub mod cover;
pub mod epub;
pub mod library;
pub mod lyrics;
pub mod render;

use vstd::prelude::*;

use crate::ebook::library::{
    album_lyric_total, book_albums, disc_lyric_total, disc_track_total, min_usize, AlbumView,
    ArtistView, Book, BookView,
};
use crate::ebook::render::{render, spec_render, thumb_views, BookInfo, Rendered, RenderedView};
use crate::text::{decimal, push_decimal, push_str};

verus! {

pub const DEFAULT_TITLE: &'static str = "Lyrics";

pub const DEFAULT_AUTHOR: &'static str = "Various Artists";

pub const DEFAULT_OUTPUT: &'static str = "Lyrics.epub";

/// How a book is titled and how much is reported while it is built.
pub struct BookOptions {
    pub title: String,
    pub author: String,
    pub verbose: u8,
    pub quiet: bool,
}

/// What went into a book, reported once it is written.
pub struct Summary {
    pub artists: usize,
    pub albums: usize,
    pub songs: usize,
    pub without_lyrics: u32,
    pub untagged: u32,
}

/// Why no book was made.
#[derive(Debug, Clone, Copy, PartialEq, Eq, Structural)]
pub enum BuildError {
    /// The library had no lyrics to put in a book.
    NothingToBook,
}

impl BuildError {
    /// What to tell the user, naming the directory that was searched.
    pub fn message(&self, dir: &str) -> (r: String)
        ensures
            r@ == "no lyrics found under "@ + dir@ + " — run `lyrics scan` first to fetch some"@,
    {
        let mut out = String::new();
        push_str(&mut out, "no lyrics found under ");
        push_str(&mut out, dir);
        push_str(&mut out, " — run `lyrics scan` first to fetch some");
        proof {
            assert(out@ =~= "no lyrics found under "@ + dir@ + " — run `lyrics scan` first to fetch some"@);
        }
        out
    }
}

impl Summary {
    pub open spec fn spec_line(&self) -> Seq<char> {
        decimal(self.artists as nat) + " artists, "@ + decimal(self.albums as nat) + " albums, "@
            + decimal(self.songs as nat) + " songs"@ + (if self.without_lyrics > 0 {
            ", "@ + decimal(self.without_lyrics as nat) + " without lyrics"@
        } else {
            seq![]
        }) + (if self.untagged > 0 {
            ", "@ + decimal(self.untagged as nat) + " untagged"@
        } else {
            seq![]
        })
    }

    /// The summary as one line, e.g. `3 artists, 5 albums, 40 songs, 2 untagged`.
    pub fn line(&self) -> (r: String)
        ensures
            r@ == self.spec_line(),
    {
        let mut out = String::new();
        push_decimal(&mut out, self.artists as u64);
        push_str(&mut out, " artists, ");
        push_decimal(&mut out, self.albums as u64);
        push_str(&mut out, " albums, ");
        push_decimal(&mut out, self.songs as u64);
        push_str(&mut out, " songs");
        let ghost t0 = out@;
        if self.without_lyrics > 0 {
            push_str(&mut out, ", ");
            push_decimal(&mut out, self.without_lyrics as u64);
            push_str(&mut out, " without lyrics");
        }
        let ghost t1 = out@;
        assert(t1 =~= t0 + if self.without_lyrics > 0 {
            ", "@ + decimal(self.without_lyrics as nat) + " without lyrics"@
        } else {
            seq![]
        });
        if self.untagged > 0 {
            push_str(&mut out, ", ");
            push_decimal(&mut out, self.untagged as u64);
            push_str(&mut out, " untagged");
        }
        assert(out@ =~= self.spec_line());
        out
    }

    /// The summary of a collected book, or the refusal to make a book of nothing.
    pub fn of(book: &Book) -> (r: Result<Summary, BuildError>)
        ensures
            match r {
                Ok(s) => book@.artists.len() > 0 && s.artists == book@.artists.len() && s.albums
                    == min_usize(book_albums(book@.artists).len() as int) && s.songs == min_usize(
                    album_lyric_total(book_albums(book@.artists)),
                ) && s.without_lyrics == book@.without_lyrics && s.untagged == book@.untagged,
                Err(e) => book@.artists.len() == 0 && e == BuildError::NothingToBook,
            },
    {
        if book.artists.len() == 0 {
            return Err(BuildError::NothingToBook);
        }
        Ok(Summary {
            artists: book.artists.len(),
            albums: book.album_count(),
            songs: book.song_count(),
            without_lyrics: book.without_lyrics,
            untagged: book.untagged,
        })
    }
}

/// The progress line for one album: its artist and title, and how many of its tracks have
/// lyrics.
pub open spec fn album_line(artist: Seq<char>, a: AlbumView) -> Seq<char> {
    "album     "@ + artist + " — "@ + a.title + " ("@ + decimal(min_usize(disc_lyric_total(a.discs)) as nat)
        + "/"@ + decimal(min_usize(disc_track_total(a.discs)) as nat) + " with lyrics)"@
}

pub open spec fn album_lines_of(artist: Seq<char>, albums: Seq<AlbumView>) -> Seq<Seq<char>>
    decreases albums.len(),
{
    if albums.len() == 0 {
        seq![]
    } else {
        album_lines_of(artist, albums.drop_last()) + seq![album_line(artist, albums.last())]
    }
}

pub open spec fn album_lines(artists: Seq<ArtistView>) -> Seq<Seq<char>>
    decreases artists.len(),
{
    if artists.len() == 0 {
        seq![]
    } else {
        album_lines(artists.drop_last()) + album_lines_of(artists.last().name, artists.last().albums)
    }
}

pub open spec fn writing_line(output: Seq<char>, r: RenderedView) -> Seq<char> {
    "writing   "@ + output + " ("@ + decimal(r.pages.len()) + " documents, "@ + decimal(r.images.len())
        + " images)"@
}

/// A rendered book, what went into it, and the progress lines to print.
pub struct Built {
    pub rendered: Rendered,
    pub summary: Summary,
    pub log: Vec<String>,
}

pub open spec fn string_views(v: Seq<String>) -> Seq<Seq<char>> {
    v.map_values(|s: String| s@)
}

fn push_album_line(log: &mut Vec<String>, artist: &str, album: &crate::ebook::library::Album)
    ensures
        string_views(final(log)@) == string_views(old(log)@).push(album_line(artist@, album@)),
{
    let mut line = String::new();
    push_str(&mut line, "album     ");
    push_str(&mut line, artist);
    push_str(&mut line, " — ");
    push_str(&mut line, album.title.as_str());
    push_str(&mut line, " (");
    push_decimal(&mut line, album.lyric_count() as u64);
    push_str(&mut line, "/");
    push_decimal(&mut line, album.track_count() as u64);
    push_str(&mut line, " with lyrics)");
    proof {
        assert(line@ =~= album_line(artist@, album@));
    }
    let ghost before = string_views(log@);
    log.push(line);
    proof {
        assert(string_views(log@) =~= before.push(album_line(artist@, album@)));
    }
}

/// Make the book: refuse a library with no lyrics; else render it with the album thumbnails
/// and the cover image made for it, and report what went in. The progress lines (each album
/// with its lyric count, then what is written to `output`) are there only when `verbose` is
/// set and `quiet` is not.
pub fn build(book: &Book, output: &str, opts: &BookOptions, thumbnails: Vec<Option<Vec<u8>>>, cover: Option<Vec<u8>>) -> (r: Result<Built, BuildError>)
    ensures
        match r {
            Ok(b) => {
                &&& book@.artists.len() > 0
                &&& b.rendered@ == spec_render(book@, opts.title@, opts.author@, thumb_views(thumbnails@), match cover {
                    Some(c) => Some(c@),
                    None => None,
                })
                &&& b.summary.artists == book@.artists.len()
                &&& b.summary.albums == min_usize(book_albums(book@.artists).len() as int)
                &&& b.summary.songs == min_usize(album_lyric_total(book_albums(book@.artists)))
                &&& b.summary.without_lyrics == book@.without_lyrics
                &&& b.summary.untagged == book@.untagged
                &&& string_views(b.log@) == if !opts.quiet && opts.verbose >= 1 {
                    album_lines(book@.artists) + seq![writing_line(output@, b.rendered@)]
                } else {
                    seq![]
                }
            },
            Err(e) => book@.artists.len() == 0 && e == BuildError::NothingToBook,
        },
{
    let summary = match Summary::of(book) {
        Ok(s) => s,
        Err(e) => return Err(e),
    };
    let shown = !opts.quiet && opts.verbose >= 1;
    let mut log: Vec<String> = Vec::new();
    if shown {
        let mut i: usize = 0;
        while i < book.artists.len()
            invariant
                i <= book.artists.len(),
                string_views(log@) == album_lines(book@.artists.take(i as int)),
            decreases book.artists.len() - i,
        {
            let artist = &book.artists[i];
            proof {
                assert(book@.artists.take(i as int + 1).drop_last() =~= book@.artists.take(i as int));
                assert(book@.artists[i as int] == artist@);
            }
            let ghost start = string_views(log@);
            let mut j: usize = 0;
            while j < artist.albums.len()
                invariant
                    j <= artist.albums.len(),
                    string_views(log@) == start + album_lines_of(artist@.name, artist@.albums.take(j as int)),
                decreases artist.albums.len() - j,
            {
                proof {
                    assert(artist@.albums.take(j as int + 1).drop_last() =~= artist@.albums.take(j as int));
                    assert(artist@.albums[j as int] == artist.albums@[j as int]@);
                }
                push_album_line(&mut log, artist.name.as_str(), &artist.albums[j]);
                proof {
                    assert(string_views(log@) =~= start + album_lines_of(artist@.name, artist@.albums.take(j as int + 1)));
                }
                j = j + 1;
            }
            proof {
                assert(artist@.albums.take(artist.albums.len() as int) =~= artist@.albums);
            }
            i = i + 1;
        }
        proof {
            assert(book@.artists.take(book.artists.len() as int) =~= book@.artists);
        }
    }
    let info = BookInfo { title: opts.title.clone(), author: opts.author.clone() };
    let rendered = render(book, &info, thumbnails, cover);
    if shown {
        let mut line = String::new();
        push_str(&mut line, "writing   ");
        push_str(&mut line, output);
        push_str(&mut line, " (");
        push_decimal(&mut line, rendered.pages.len() as u64);
        push_str(&mut line, " documents, ");
        push_decimal(&mut line, rendered.images.len() as u64);
        push_str(&mut line, " images)");
        proof {
            assert(line@ =~= writing_line(output@, rendered@));
        }
        let ghost before = string_views(log@);
        log.push(line);
        proof {
            assert(string_views(log@) =~= before + seq![writing_line(output@, rendered@)]);
        }
    } else {
        proof {
            assert(string_views(log@) =~= Seq::<Seq<char>>::empty());
        }
    }
    Ok(Built { rendered, summary, log })
}

} // verus!
