# leadextract

Extracts contact information (emails, phone numbers, social links, names) from
public web pages and crawls a site's internal links, as a Verus-verified library
with a thin command-line front end.

## Layout

- `src/text.rs`: character-level string operations (trim, prefix/suffix tests,
  splitting, white-space normalization, UTF-8 length) specified over `Seq<char>`.
- `src/html.rs`, `src/pattern.rs`, `src/weburl.rs`: the calls into `scraper`,
  `regex` and `url`, each behind a small trusted wrapper whose result is named.
- `src/extractor.rs`: what counts as an email, phone, social link or name on a
  page, and the extraction of a whole page.
- `src/lead.rs`: the `Lead` and `Social` records and case-insensitive
  deduplication, with its laws.
- `src/crawler.rs`: the crawl's decisions: responses to skip, internal links to
  follow, the start domain, and the per-domain request spacing.
- `src/frontier.rs`: the breadth-first crawl state: it never admits a URL twice,
  queues only pages reached from the start through internal links within the
  depth limit, keeps the leads of fetched pages that hold data, takes each page
  at most once, keeps at most five pages in flight, and, once its queue is
  empty, has handed out every internal link of the pages fetched below the
  depth limit.
- `src/output.rs`: report totals and the CSV rows.
- `src/targets.rs`: turning the command-line target into URLs.
- `app/`: argument parsing, HTTP, the concurrent crawl loop, terminal output,
  JSON and CSV files.
