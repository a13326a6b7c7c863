# http_server

A small HTTP account server (sign-up, sign-in, sessions kept in cookies, and a
per-account request quota stored in a text database of fixed-width lines),
with its request handling written in Verus and proved against its contracts.

- `src/` is the verified library:
  - `text.rs`: splitting, prefixes, decimal and hexadecimal digits, UTF-8 byte lengths;
  - `codec.rs`: hexadecimal session tokens and URL-encoded form values;
  - `credentials.rs`: reading the sign-up and sign-in forms, and the e-mail,
    user-name and password rules;
  - `session.rs`: the `Cookie:` line, the set of open sessions, and the
    session file written at shutdown and read at start-up;
  - `db.rs`: the account lines: sign-up, sign-in, the token quota, the
    write that records a request, and the database file as bytes with its
    in-place updates;
  - `http.rs`: routing, the plan of each route, responses, and the replies
    that open sessions.
- `app/main.rs` is the program around it: the listener, the worker threads,
  the files, `/dev/urandom`, and the shutdown signal; it carries out the
  plan that the library gives for each request.
- `tests/` runs the library on concrete requests and database lines.
