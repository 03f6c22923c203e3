# bydate

`bydate` keeps one directory per day under a base directory, laid out as
`<basedir>/YYYY/MM/DD`, and prints the path of a day's directory:

    bydate today [+-N] [--no-create-dirs]
    bydate yesterday          (bydate today -1)
    bydate tomorrow           (bydate today +1)
    bydate days +-N [--extant-dirs]

The base directory is what the link `bydate/basedir` in the configuration
directory points to, or `~/bydate`.

## Layout

- `src/` is the library, written in Verus with its contracts proved:
  - `args`: the command line;
  - `calendar`: dates, day numbers, and the `YYYY/MM/DD` names of days;
  - `path`: Unix paths as `std::path` reads them (components, file names,
    joins);
  - `numbers`: decimal integers as `str::parse` reads them;
  - `entries`: directory listings and their numbered entries;
  - `bydate`: a day's directory, the date a directory stands for, the
    earliest and latest dated directories, and runs of days;
  - `links`: where the base directory is, and how the `today` link is updated;
  - `text`: characters of strings.
- `app/` is the program: it reads the clock, the environment and the disk,
  hands what it read to the library, and prints or creates what the library
  decides.
- `tests/` runs the library on concrete cases.
