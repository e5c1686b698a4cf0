# site-encrypt

Password protection for static sites. It runs after the site generator and
before the deployment: marked nodes of the built pages are encrypted in place,
and feed entries that link to an encrypted page lose their body.

The library in `src/` is verified with Verus: what each function returns or
changes is stated in its contract and proved. The program in `app/` reads and
writes files and calls the library.

## Library

| Module | What is in it |
|---|---|
| `text` | searching, trimming, numbers in decimal notation |
| `glob` | patterns over `/`-separated paths |
| `url` | from the address of a feed entry to the file of a page |
| `scan` | tags and attributes in the text of a feed |
| `feed` | redaction of a feed |
| `splice`, `rerun` | why a second redaction changes nothing |
| `crypto` | the payload: PBKDF2-HMAC-SHA256 and AES-256-GCM |
| `secrets`, `config`, `env` | passwords, settings, and the environment variables that win over them |
| `markup` | the unlock form |
| `dom` | a page as a tree of nodes |
| `node`, `page` | encrypting a node, and all nodes of a page |
| `paths`, `site` | files of a site, and what a run tells of them |

Proof functions whose name begins with `law_` state what holds of several
functions together.

What other crates do is not proved here. Each call stands in a function marked
`external_body`, and two functions of std have an `assume_specification`. A
comment says what is taken for granted of each.

## Program

```
site-encrypt --config encrypt.toml --input public [--dry-run] [--check]
```

`--dry-run` scans and validates without writing. `--check` validates the
configuration and its CSS selectors alone.

```toml
[[scanner.rules]]
selector = "#encryptedBox"
content_selector = "#articleContent"

[feeds]
enabled = true

[passwords]
blog = "replace-this"
```

Passwords may come from the environment instead: `SITE_ENCRYPT_PASSWORDS` holds
TOML lines, and `SITE_ENCRYPT_PASSWORDS_<ALIAS>` one password.
