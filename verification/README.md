# blog

A static site generator for a personal blog, written in Verus: the posts'
frontmatter and Markdown, the templates, the pages, the feed and sitemap, the
CSS minifier and the link checker are executable Rust whose contracts Verus
proves.

```bash
ssg build              # -> dist/
ssg dev                # localhost:8788, live reload, drafts included
ssg new "Post title"   # scaffolds content/blog/post-title.md, opens $EDITOR
ssg check              # builds, then verifies links and class names
```

## Layout

- `src/` is the verified library. Each module states what it computes as spec
  functions over `Seq<char>` and plain values, and every public function's
  `ensures` equates its result with them.
  - `frontmatter`, `content`: the frontmatter grammar and a post's fields;
    `markdown` hands the body to pulldown-cmark, syntect and latex2mathml
    through trusted wrappers and rewrites the events in between.
  - `fill`, `render`, `model`, `routes`, `site`: templates and the pages of
    the site; `feeds`, `xml`: RSS and the sitemap.
  - `css`, `html`, `check`: the CSS tokenizer and minifier, the HTML scanner
    and the checks run on a built site.
  - `date`, `clock`: civil dates and the year from the system clock.
  - `dev`: what the development server decides for a request.
  - `untag`, `rejoin`, `significant`, `passthrough`, `untouched`, `weekdays`,
    `isodate`: proofs of properties that span several functions.
- `app/` holds what cannot be verified: the command line, file and network
  I/O, the development server's loop, and the social preview images (floating
  point and glyph rasterising).
- `tests/` runs the library on concrete inputs.
